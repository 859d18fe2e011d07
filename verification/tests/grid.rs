//! The mapping grid.

use ohc_ingest::consts;
use ohc_ingest::grid::{cell_area, count_cells, Grid2, Grid3};
use ohc_ingest::GridDef;

#[test]
fn mapping_grid_endpoints() {
    let g = GridDef::mapping();
    assert_eq!(g.nlon(), consts::NLON);
    assert_eq!(g.nlat(), consts::NLAT);
    assert_eq!(f64::from_bits(g.lon[0]), 20.5);
    assert_eq!(f64::from_bits(*g.lon.last().unwrap()), 379.5);
    assert_eq!(f64::from_bits(g.lat[0]), -89.5);
    assert_eq!(f64::from_bits(*g.lat.last().unwrap()), 89.5);
}

#[test]
fn mapping_grid_is_one_degree_apart() {
    let g = GridDef::mapping();
    for (i, &x) in g.lon.iter().enumerate() {
        assert_eq!(f64::from_bits(x), 20.5 + i as f64);
    }
    for (j, &y) in g.lat.iter().enumerate() {
        assert_eq!(f64::from_bits(y), -89.5 + j as f64);
    }
}

#[test]
fn areas_depend_on_the_latitude_alone() {
    let g = GridDef { lon: vec![1, 2, 3], lat: vec![4, 5] };
    let a = cell_area(&g, &vec![10, 20]);
    assert_eq!((a.nrow, a.ncol), (2, 3));
    assert_eq!(a.cells, vec![10, 10, 10, 20, 20, 20]);
}

#[test]
fn tables_and_blocks() {
    let mut t = Grid2::filled(2, 3, 0u8);
    t.set(1, 2, 7);
    assert_eq!((t.get(1, 2), t.get(0, 2)), (7, 0));
    let b = Grid3 { n0: 2, n1: 2, n2: 2, cells: vec![0, 1, 2, 3, 4, 5, 6, 7] };
    assert_eq!((b.get(0, 1, 1), b.get(1, 0, 1)), (3, 5));
}

#[test]
fn cells_are_counted_or_too_many() {
    assert_eq!(count_cells(&vec![]), Some(1));
    assert_eq!(count_cells(&vec![3, 4, 5]), Some(60));
    assert_eq!(count_cells(&vec![usize::MAX, usize::MAX, 0]), Some(0));
    assert_eq!(count_cells(&vec![usize::MAX, 2]), None);
}
