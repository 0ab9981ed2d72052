use fire_sim_core::grid::{radiation_cells, ActiveCells, GridDims};

#[test]
fn test_cell_access() {
    // Grid is 10x10x5 cells (100/10, 100/10, 50/10)
    let dims = GridDims::new(10, 10, 5);
    let idx = dims.cell_at(5, 5, 2).unwrap();
    assert_eq!(idx, 2 * 100 + 5 * 10 + 5);
    assert_eq!(dims.cell_coords(idx), (5, 5, 2));
}

#[test]
fn test_active_cells() {
    // 100 m x 100 m x 50 m at 5 m cells: 20 x 20 x 10 cells. The burning
    // element at (50, 50, 10) sits in cell (10, 10, 2); a 15 m activation
    // radius covers 3 cells around it.
    let dims = GridDims::new(20, 20, 10);
    let mut active = ActiveCells::new(dims);
    active.mark_active_cells(&vec![(10, 10, 2)], 3);

    let active_count = active.active_cell_count();
    assert!(active_count > 0);
    assert!(active_count < 20 * 20 * 10);
}

#[test]
fn cell_at_outside_grid() {
    let dims = GridDims::new(4, 3, 2);
    assert_eq!(dims.cell_at(4, 0, 0), None);
    assert_eq!(dims.cell_at(0, 3, 0), None);
    assert_eq!(dims.cell_at(0, 0, 2), None);
    assert_eq!(dims.cell_at(3, 2, 1), Some(23));
    assert_eq!(dims.cell_index(1, 2, 1), 12 + 8 + 1);
}

#[test]
fn coords_round_trip() {
    let dims = GridDims::new(7, 5, 3);
    for idx in 0..105 {
        let (x, y, z) = dims.cell_coords(idx);
        assert_eq!(dims.cell_index(x, y, z), idx);
    }
}

#[test]
fn marked_region_is_clipped_cube() {
    let dims = GridDims::new(20, 20, 10);
    let mut active = ActiveCells::new(dims);
    active.mark_active_cells(&vec![(10, 10, 2)], 3);
    // x, y in 7..=13 (7 cells), z in 0..=5 (6 cells).
    assert_eq!(active.active_cell_count(), 7 * 7 * 6);
    assert_eq!(active.active_indices().len(), 7 * 7 * 6);
    assert!(active.is_active(dims.cell_index(7, 13, 0)));
    assert!(!active.is_active(dims.cell_index(6, 10, 2)));
    assert!(!active.is_active(dims.cell_index(10, 10, 6)));
}

#[test]
fn remarking_replaces_active_set() {
    let dims = GridDims::new(10, 10, 10);
    let mut active = ActiveCells::new(dims);
    active.mark_active_cells(&vec![(1, 1, 1)], 1);
    assert_eq!(active.active_cell_count(), 27);
    active.mark_active_cells(&vec![(8, 8, 8), (8, 8, 8), (9, 9, 9)], 1);
    assert!(!active.is_active(dims.cell_index(1, 1, 1)));
    assert!(active.is_active(dims.cell_index(9, 9, 9)));
    // Cube 7..=9 around (8,8,8) contains the clipped cube around (9,9,9).
    assert_eq!(active.active_cell_count(), 27);
    active.mark_active_cells(&vec![], 1);
    assert_eq!(active.active_cell_count(), 0);
    assert!(active.active_indices().is_empty());
}

#[test]
fn centers_outside_grid_reach_in() {
    let dims = GridDims::new(5, 5, 5);
    let mut active = ActiveCells::new(dims);
    active.mark_active_cells(&vec![(-1, 2, 2)], 1);
    assert_eq!(active.active_cell_count(), 9);
    active.mark_active_cells(&vec![(-3, 2, 2)], 1);
    assert_eq!(active.active_cell_count(), 0);
    active.mark_active_cells(&vec![(2, 2, 2)], -1);
    assert_eq!(active.active_cell_count(), 0);
}

#[test]
fn diffusion_cells_dilate_active_set() {
    let dims = GridDims::new(6, 6, 6);
    let mut active = ActiveCells::new(dims);
    active.mark_active_cells(&vec![(0, 0, 0)], 0);
    assert_eq!(active.active_cell_count(), 1);
    let cells = active.diffusion_cells();
    assert_eq!(cells.len(), 8);
    assert_eq!(cells[0], dims.cell_index(0, 0, 0));
    assert_eq!(cells[7], dims.cell_index(1, 1, 1));
    // The tracker itself is unchanged, and a second call gives the same cells.
    assert_eq!(active.active_cell_count(), 1);
    assert_eq!(active.diffusion_cells(), cells);
}

#[test]
fn plume_climbs_and_spreads() {
    let dims = GridDims::new(10, 10, 10);
    let t = fire_sim_core::grid::plume_targets(&dims, (5, 5, 2), 3);
    // dz = 1: spread 0 (one cell); dz = 2 and 3: spread 1 (3 x 3 cells).
    assert_eq!(t.len(), 1 + 9 + 9);
    assert_eq!(t[0], (dims.cell_index(5, 5, 3), 1));
    assert_eq!(t[1], (dims.cell_index(4, 4, 4), 2));
    assert_eq!(t[18], (dims.cell_index(6, 6, 5), 3));
    for w in t.windows(2) {
        assert!(w[0].0 < w[1].0);
    }
}

#[test]
fn plume_is_capped_and_clipped() {
    let dims = GridDims::new(3, 3, 4);
    // Rise of 100 cells is capped at 5 layers, but only layers z = 1..=3 exist.
    let t = fire_sim_core::grid::plume_targets(&dims, (0, 0, 0), 100);
    // dz = 1: (0,0); dz = 2: x, y in 0..=1; dz = 3: x, y in 0..=1.
    assert_eq!(t.len(), 1 + 4 + 4);
    assert!(t.iter().all(|e| e.1 >= 1 && e.1 <= 3));
    assert!(fire_sim_core::grid::plume_targets(&dims, (0, 0, 0), 0).is_empty());
    assert!(fire_sim_core::grid::plume_targets(&dims, (0, 0, 3), 2).is_empty());
}

#[test]
fn radiation_reaches_neighbours_but_not_the_source() {
    let dims = GridDims::new(4, 4, 4);
    let cells = radiation_cells(&dims, (1, 1, 1), 1);
    assert_eq!(cells.len(), 26);
    assert!(!cells.contains(&dims.cell_index(1, 1, 1)));
    assert!(cells.contains(&dims.cell_index(0, 0, 0)));
    assert!(cells.contains(&dims.cell_index(2, 2, 2)));
    assert!(cells.windows(2).all(|w| w[0] < w[1]));
}

#[test]
fn radiation_is_clipped_at_the_grid_edge() {
    let dims = GridDims::new(4, 4, 4);
    // Corner cell: only the 7 other cells of the 2x2x2 corner block remain.
    let cells = radiation_cells(&dims, (0, 0, 0), 1);
    assert_eq!(cells, vec![1, 4, 5, 16, 17, 20, 21]);
    // A source outside the grid still radiates into the cells it reaches.
    assert_eq!(radiation_cells(&dims, (-1, 0, 0), 1), vec![0, 4, 16, 20]);
    // No radius: nothing but the source cell, which is skipped.
    assert!(radiation_cells(&dims, (2, 2, 2), 0).is_empty());
    assert!(radiation_cells(&dims, (2, 2, 2), -1).is_empty());
}

#[test]
fn face_neighbours_inside_and_at_corners() {
    let dims = GridDims::new(3, 3, 3);
    let centre = dims.cell_index(1, 1, 1);
    assert_eq!(
        dims.face_neighbors(centre),
        [Some(12), Some(14), Some(10), Some(16), Some(4), Some(22)]
    );
    assert_eq!(
        dims.face_neighbors(0),
        [None, Some(1), None, Some(3), None, Some(9)]
    );
    assert_eq!(
        dims.face_neighbors(26),
        [Some(25), None, Some(23), None, Some(17), None]
    );
    let flat = GridDims::new(1, 1, 1);
    assert_eq!(flat.face_neighbors(0), [None; 6]);
}

#[test]
fn diffusion_cells_follow_the_active_cell_in_row_major_order() {
    let dims = GridDims::new(5, 5, 5);
    let mut active = ActiveCells::new(dims);
    active.mark_active_cells(&vec![(1, 1, 1)], 0);
    assert_eq!(active.active_indices(), &vec![31]);
    let cells = active.diffusion_cells();
    let mut expected = Vec::new();
    for z in 0..3 {
        for y in 0..3 {
            for x in 0..3 {
                expected.push(dims.cell_index(x, y, z));
            }
        }
    }
    assert_eq!(cells, expected);
}
