use rustfield::field::{
    neighbors_with_distance, neighbors_with_distance_iter, CellPos, Field,
};

#[test]
fn cellpos_new_is_origin() {
    let p = CellPos::new();
    assert_eq!(p.i, 0);
    assert_eq!(p.j, 0);
}

#[test]
fn set_then_get_returns_value_everywhere() {
    let mut f: Field<u8> = Field::new(0, 4, 3);
    for i in 0..4usize {
        for j in 0..3usize {
            let p = CellPos { i, j };
            let v = (10 * i + j) as u8;
            f.set(&p, v);
            assert_eq!(f.get(&p), v);
        }
    }
    // earlier writes are still intact after later ones
    for i in 0..4usize {
        for j in 0..3usize {
            let p = CellPos { i, j };
            assert_eq!(f.get(&p), (10 * i + j) as u8);
        }
    }
}

#[test]
fn octile_distance_exact_values() {
    let a = CellPos { i: 0, j: 0 };
    let b = CellPos { i: 4, j: 4 };
    assert_eq!(a.distance(&b), 56);
    let c = CellPos { i: 3, j: 1 };
    assert_eq!(a.distance(&c), 10 * 2 + 14);
    assert_eq!(c.distance(&a), 10 * 2 + 14);
    assert_eq!(a.distance(&a), 0);
    let d = CellPos { i: 0, j: 5 };
    assert_eq!(a.distance(&d), 50);
}

#[test]
fn neighbors_of_interior_cell() {
    let p = CellPos { i: 1, j: 1 };
    let r = neighbors_with_distance(&p, 3, 3);
    assert_eq!(r.len(), 8);
    let diagonals = r.iter().filter(|(_, d)| *d == 14).count();
    let orthogonals = r.iter().filter(|(_, d)| *d == 10).count();
    assert_eq!(diagonals, 4);
    assert_eq!(orthogonals, 4);
    assert!(!r.iter().any(|(q, _)| q.i == 1 && q.j == 1));
}

#[test]
fn neighbors_clipped_at_corner() {
    let p = CellPos { i: 0, j: 0 };
    let r = neighbors_with_distance(&p, 3, 3);
    assert_eq!(r.len(), 3);
    for (q, d) in &r {
        assert!(q.i <= 1 && q.j <= 1);
        let expected = if q.i == 1 && q.j == 1 { 14 } else { 10 };
        assert_eq!(*d, expected);
    }
}

#[test]
fn neighbors_iter_agrees_with_vec() {
    let p = CellPos { i: 2, j: 0 };
    let from_vec = neighbors_with_distance(&p, 4, 4);
    let mut it = neighbors_with_distance_iter(&p, 4, 4);
    let mut from_iter: Vec<(CellPos, i8)> = Vec::new();
    while let Some(t) = it.next() {
        from_iter.push(t);
    }
    assert_eq!(from_vec.len(), from_iter.len());
    for (q, d) in &from_vec {
        assert!(from_iter.iter().any(|(q2, d2)| q2 == q && d2 == d));
    }
}

#[test]
fn grow_is_clamped_block() {
    let f: Field<u8> = Field::new(0, 3, 3);
    let center = f.grow(&CellPos { i: 1, j: 1 });
    assert_eq!(center.len(), 9);
    let corner = f.grow(&CellPos { i: 0, j: 0 });
    assert_eq!(corner.len(), 4);
    assert!(corner.iter().any(|q| q.i == 0 && q.j == 0));
    let edge = f.grow(&CellPos { i: 1, j: 0 });
    assert_eq!(edge.len(), 6);
}

#[test]
fn single_cell_grid_has_no_neighbors() {
    let p = CellPos { i: 0, j: 0 };
    assert!(neighbors_with_distance(&p, 1, 1).is_empty());
    let f: Field<u8> = Field::new(7, 1, 1);
    let block = f.grow(&p);
    assert_eq!(block.len(), 1);
    assert_eq!((block[0].i, block[0].j), (0, 0));
}
