use fire_sim_core::spatial::{generate_neighbor_offsets, morton_encode, SpatialIndex};

#[test]
fn test_morton_encoding() {
    // Morton encoding should provide spatial locality
    let code1 = morton_encode(0, 0, 0);
    let code2 = morton_encode(1, 0, 0);
    let code3 = morton_encode(0, 1, 0);

    // Nearby points should have similar codes
    assert!(code1 != code2);
    assert!(code1 != code3);
}

#[test]
fn test_spatial_index_insert_query() {
    // Bounds start at -100 with 10 m cells: the positions (0,0,0), (5,5,5)
    // and (50,50,50) fall in cells (10,10,10), (10,10,10) and (15,15,15); a
    // 15 m query radius needs 2 cells around the base cell (10,10,10).
    let mut index = SpatialIndex::new();

    index.insert(1, (10, 10, 10));
    index.insert(2, (10, 10, 10));
    index.insert(3, (15, 15, 15));

    let nearby: Vec<u32> = index.query_cells((10, 10, 10), 2).iter().map(|e| e.0).collect();
    assert!(nearby.contains(&1));
    assert!(nearby.contains(&2));
    assert!(!nearby.contains(&3));
}

#[test]
fn morton_interleaves_low_bits() {
    assert_eq!(morton_encode(1, 0, 0), 0b001);
    assert_eq!(morton_encode(0, 1, 0), 0b010);
    assert_eq!(morton_encode(0, 0, 1), 0b100);
    assert_eq!(morton_encode(3, 0, 0), 0b001_001);
    assert_eq!(morton_encode(7, 7, 7), 0b111_111_111);
    assert_eq!(morton_encode(0, 0, 0x10_0000), 1u64 << 62);
}

#[test]
fn morton_keeps_21_bits_of_negative_coordinates() {
    // -1 has all bits set; only the lowest 21 of each coordinate are kept.
    assert_eq!(morton_encode(-1, -1, -1), (1u64 << 63) - 1);
    assert_eq!(morton_encode(-1, 0, 0), morton_encode(0x1f_ffff, 0, 0));
    // Coordinates that differ only above bit 20 collide.
    assert_eq!(morton_encode(0x20_0000, 0, 0), morton_encode(0, 0, 0));
}

#[test]
fn neighbor_offsets_enumerate_cube() {
    let o1 = generate_neighbor_offsets(1);
    assert_eq!(o1.len(), 27);
    assert_eq!(o1[0], (-1, -1, -1));
    assert_eq!(o1[1], (-1, -1, 0));
    assert_eq!(o1[13], (0, 0, 0));
    assert_eq!(o1[26], (1, 1, 1));
    assert_eq!(generate_neighbor_offsets(2).len(), 125);
    assert_eq!(generate_neighbor_offsets(3).len(), 343);
    assert_eq!(generate_neighbor_offsets(4).len(), 729);
    assert_eq!(generate_neighbor_offsets(0), vec![(0, 0, 0)]);
}

#[test]
fn query_reports_insertion_numbers_in_cell_order() {
    let mut index = SpatialIndex::new();
    assert_eq!(index.insert(7, (0, 0, 1)), 0);
    assert_eq!(index.insert(8, (0, 0, 0)), 1);
    assert_eq!(index.insert(9, (0, 0, 0)), 2);
    assert_eq!(index.len(), 3);
    // Radius 0 selects only the base cell.
    assert_eq!(index.query_cells((0, 0, 0), 0), vec![(8, 1), (9, 2)]);
    // Radius 1: cells in x, y, z order; (0,0,0) comes before (0,0,1).
    assert_eq!(index.query_cells((0, 0, 0), 1), vec![(8, 1), (9, 2), (7, 0)]);
    // A negative radius selects nothing.
    assert!(index.query_cells((0, 0, 0), -1).is_empty());
}

#[test]
fn query_excludes_cells_beyond_radius() {
    let mut index = SpatialIndex::new();
    index.insert(1, (5, 5, 5));
    index.insert(2, (8, 5, 5));
    let near: Vec<u32> = index.query_cells((5, 5, 5), 2).iter().map(|e| e.0).collect();
    assert_eq!(near, vec![1]);
    let far: Vec<u32> = index.query_cells((5, 5, 5), 3).iter().map(|e| e.0).collect();
    assert_eq!(far, vec![1, 2]);
}
