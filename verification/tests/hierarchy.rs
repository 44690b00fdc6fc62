use rustfield::cost_map::CostMap;
use rustfield::field::CellPos;
use rustfield::flowfield::{FlowField, GRID_SIZE, GRID_SIZE_MINUS, MAX_INTEGRATION};
use rustfield::pathfinding::{ComposedResult, FullPathCompute, PathComputer, Zone};

fn run_full_path(computer: &mut PathComputer) {
    for _ in 0..1000000 {
        let done = matches!(
            computer.full_paths[0],
            FullPathCompute::FlowFieldComputed(..)
        );
        if done {
            return;
        }
        FullPathCompute::step_replace(&mut computer.full_paths[0]);
    }
    panic!("hierarchical computation did not finish");
}

fn composed(computer: &PathComputer) -> &ComposedResult {
    match &computer.full_paths[0] {
        FullPathCompute::FlowFieldComputed(r) => r,
        _ => panic!("not composed"),
    }
}

fn tile_at(r: &ComposedResult, zx: usize, zy: usize) -> Option<&FlowField> {
    r.computed.get_ref(&CellPos { i: zx, j: zy }).as_ref()
}

#[test]
fn zone_cell_ranges() {
    let z = Zone { zx: 1, zy: 2 };
    assert_eq!(z.min_i(), 7);
    assert_eq!(z.max_i(), 14);
    assert_eq!(z.min_j(), 14);
    assert_eq!(z.max_j(), 21);
    let p = z.large_cell_pos();
    assert_eq!((p.i, p.j), (1, 2));
}

#[test]
fn cost_map_chunks() {
    let m = CostMap::new(20);
    assert_eq!(m.size, 20);
    assert_eq!(m.chunks_on_x, 3);
    assert_eq!(m.cost.get(&CellPos { i: 19, j: 19 }), 1);
    let mut m2 = CostMap::new(10);
    m2.cost.set(&CellPos { i: 5, j: 5 }, 255);
    m2.reset();
    assert_eq!(m2.cost.get(&CellPos { i: 5, j: 5 }), 1);
}

#[test]
fn full_path_reaches_composed_state() {
    let map = CostMap::new(20);
    let mut pc = PathComputer::new();
    let from = CellPos { i: 1, j: 1 };
    let to = CellPos { i: 16, j: 16 };
    pc.begin_full_path(from, to, map.cost.clone());
    run_full_path(&mut pc);
    let r = composed(&pc);
    assert_eq!(r.computed.width, 20 / GRID_SIZE_MINUS + 1);
    assert_eq!(r.computed.height, 20 / GRID_SIZE_MINUS + 1);
    // the target's own tile is computed and integrates to 0 at the target
    let tz = (to.i / GRID_SIZE_MINUS, to.j / GRID_SIZE_MINUS);
    let tile = tile_at(r, tz.0, tz.1).expect("target tile missing");
    let local = CellPos { i: to.i % GRID_SIZE_MINUS, j: to.j % GRID_SIZE_MINUS };
    assert_eq!(tile.integration.get(&local), 0);
    // the start's tile is computed too and the start cell was reached
    let sz = (from.i / GRID_SIZE_MINUS, from.j / GRID_SIZE_MINUS);
    let stile = tile_at(r, sz.0, sz.1).expect("start tile missing");
    let slocal = CellPos { i: from.i % GRID_SIZE_MINUS, j: from.j % GRID_SIZE_MINUS };
    assert!(stile.integration.get(&slocal) < MAX_INTEGRATION);
}

#[test]
fn stitched_borders_agree_between_tiles() {
    let map = CostMap::new(20);
    let mut pc = PathComputer::new();
    pc.begin_full_path(
        CellPos { i: 2, j: 2 },
        CellPos { i: 17, j: 17 },
        map.cost.clone(),
    );
    run_full_path(&mut pc);
    let r = composed(&pc);
    let zw = r.computed.width;
    let zh = r.computed.height;
    // horizontally adjacent computed tiles share a global column: the last
    // column of the left tile and the first column of the right one
    for zx in 0..zw - 1 {
        for zy in 0..zh {
            if let (Some(a), Some(b)) = (tile_at(r, zx, zy), tile_at(r, zx + 1, zy)) {
                for j in 0..GRID_SIZE {
                    let left = a.integration.get(&CellPos { i: GRID_SIZE_MINUS, j });
                    let right = b.integration.get(&CellPos { i: 0, j });
                    assert_eq!(left, right, "seam mismatch at zones ({zx},{zy})-({},{zy}) row {j}", zx + 1);
                }
            }
        }
    }
    // vertically adjacent computed tiles share a global row
    for zx in 0..zw {
        for zy in 0..zh - 1 {
            if let (Some(a), Some(b)) = (tile_at(r, zx, zy), tile_at(r, zx, zy + 1)) {
                for i in 0..GRID_SIZE {
                    let top = a.integration.get(&CellPos { i, j: GRID_SIZE_MINUS });
                    let bottom = b.integration.get(&CellPos { i, j: 0 });
                    assert_eq!(top, bottom, "seam mismatch at zones ({zx},{zy})-({zx},{}) col {i}", zy + 1);
                }
            }
        }
    }
}

#[test]
fn follow_guides_toward_target() {
    let map = CostMap::new(20);
    let mut pc = PathComputer::new();
    let to = CellPos { i: 16, j: 16 };
    pc.begin_full_path(CellPos { i: 1, j: 1 }, to, map.cost.clone());
    run_full_path(&mut pc);
    let r = composed(&pc);
    // standing right at the target there is nowhere better to go
    assert_eq!(r.follow(&to), (0, 0));
    // on an open map, following the field from any reached cell strictly
    // lowers the distance-to-target, so a walk terminates at the target
    let mut pos = CellPos { i: 2, j: 2 };
    for _ in 0..500 {
        if pos == to {
            break;
        }
        let (dx, dy) = r.follow(&pos);
        assert!(
            dx != 0 || dy != 0,
            "stuck at ({}, {}) before reaching the target",
            pos.i,
            pos.j
        );
        pos = CellPos {
            i: (pos.i as i64 + dx) as usize,
            j: (pos.j as i64 + dy) as usize,
        };
    }
    assert_eq!(pos, to);
}

#[test]
fn all_astars_lists_flat_and_inner_searches() {
    let map = CostMap::new(20);
    let mut pc = PathComputer::new();
    pc.begin_astar(CellPos { i: 0, j: 0 }, CellPos { i: 5, j: 5 }, map.cost.clone());
    pc.begin_full_path(CellPos { i: 1, j: 1 }, CellPos { i: 15, j: 15 }, map.cost.clone());
    assert_eq!(pc.all_astars().len(), 2);
    run_full_path(&mut pc);
    // the hierarchical computation has left its coarse-search phase
    assert_eq!(pc.all_astars().len(), 1);
}

#[test]
fn wall_detour_shows_in_composed_field() {
    // a wall with a gap: the integration on the far side must route
    // through the gap, so the cell straight across the wall is farther
    // than it would be on an open map
    let mut map = CostMap::new(20);
    for j in 0..20usize {
        if j != 15 {
            map.cost.set(&CellPos { i: 10, j }, 255);
        }
    }
    let to = CellPos { i: 16, j: 2 };
    let mut pc = PathComputer::new();
    pc.begin_full_path(CellPos { i: 2, j: 2 }, to, map.cost.clone());
    run_full_path(&mut pc);
    let r = composed(&pc);
    // a wall cell itself is never integrated
    let wz = (10 / GRID_SIZE_MINUS, 2 / GRID_SIZE_MINUS);
    if let Some(tile) = tile_at(r, wz.0, wz.1) {
        let local = CellPos { i: 10 % GRID_SIZE_MINUS, j: 2 % GRID_SIZE_MINUS };
        assert_eq!(tile.integration.get(&local), MAX_INTEGRATION);
    }
}

#[test]
fn run_to_completion_composes_the_field() {
    let mut map = CostMap::new(20);
    map.cost.set(&CellPos { i: 9, j: 9 }, 255);
    let s = FullPathCompute::Astar(rustfield::astar::AStarCompute::InitialData {
        from: CellPos { i: 0, j: 0 },
        to: CellPos { i: 18, j: 18 },
        cost: map.cost.clone(),
    });
    match s.run_to_completion() {
        FullPathCompute::FlowFieldComputed(r) => {
            let tile = tile_at(&r, 18 / GRID_SIZE_MINUS, 18 / GRID_SIZE_MINUS)
                .expect("target tile missing");
            let local = CellPos { i: 18 % GRID_SIZE_MINUS, j: 18 % GRID_SIZE_MINUS };
            assert_eq!(tile.integration.get(&local), 0);
        }
        _ => panic!("run did not end composed"),
    }
}
