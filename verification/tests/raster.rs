use fire_sim_core::raster::{
    central_stencil, clamped_raster_index, front_cells, gradient_magnitude_fixed, has_sufficient_memory, int_sqrt, raster_index,
    raster_index_unsigned, upwind_difference, workgroup_counts,
};

#[test]
fn raster_index_inside_and_outside() {
    assert_eq!(raster_index(64, 32, 3, 2), Some(2 * 64 + 3));
    assert_eq!(raster_index(64, 32, 63, 31), Some(31 * 64 + 63));
    assert_eq!(raster_index(64, 32, -1, 0), None);
    assert_eq!(raster_index(64, 32, 64, 0), None);
    assert_eq!(raster_index(64, 32, 0, 32), None);
    assert_eq!(raster_index_unsigned(64, 32, 10, 5), Some(5 * 64 + 10));
    assert_eq!(raster_index_unsigned(64, 32, 64, 5), None);
}

#[test]
fn clamped_index_sticks_to_edges() {
    assert_eq!(clamped_raster_index(4, 3, -5, -5), 0);
    assert_eq!(clamped_raster_index(4, 3, 10, 10), 2 * 4 + 3);
    assert_eq!(clamped_raster_index(4, 3, 2, 1), 6);
}

#[test]
fn workgroups_round_up() {
    assert_eq!(workgroup_counts(64, 64), (4, 4));
    assert_eq!(workgroup_counts(65, 1), (5, 1));
    assert_eq!(workgroup_counts(0, 16), (0, 1));
    assert_eq!(workgroup_counts(2048, 2047), (128, 128));
}

#[test]
fn memory_check_reserves_four_times() {
    assert!(has_sufficient_memory(16 * 1024 * 1024, 1024, 1024, 4));
    assert!(!has_sufficient_memory(16 * 1024 * 1024 - 1, 1024, 1024, 4));
    assert!(has_sufficient_memory(0, 1024, 1024, 0));
}

fn reference_sqrt(val: i32) -> i32 {
    if val <= 0 {
        return 0;
    }
    let mut sqrt_val = val / 2;
    for _ in 0..10 {
        if sqrt_val == 0 {
            break;
        }
        sqrt_val = i32::midpoint(sqrt_val, val / sqrt_val);
    }
    sqrt_val
}

#[test]
fn int_sqrt_values() {
    assert_eq!(int_sqrt(0), 0);
    assert_eq!(int_sqrt(-9), 0);
    assert_eq!(int_sqrt(1), 0);
    assert_eq!(int_sqrt(4), 2);
    assert_eq!(int_sqrt(100), 10);
    // Ten iterations from val / 2 do not always converge for large values.
    assert_eq!(int_sqrt(1024 * 1024), 1062);
    for v in [2, 3, 17, 1000, 65536, 1 << 20, 123_456_789, i32::MAX] {
        assert_eq!(int_sqrt(v), reference_sqrt(v));
    }
}

#[test]
fn upwind_picks_larger_difference() {
    assert_eq!(upwind_difference(0, 5, 7), 5);
    assert_eq!(upwind_difference(4, 5, 15), 10);
    assert_eq!(upwind_difference(3, 5, 7), 2);
    assert_eq!(upwind_difference(10, 5, 7), -5);
}

#[test]
fn gradient_magnitude_scaling() {
    assert_eq!(gradient_magnitude_fixed(32, 1024), 1024);
    assert_eq!(gradient_magnitude_fixed(10, 0), 0);
    assert_eq!(gradient_magnitude_fixed(32, -1024), -1024);
    assert_eq!(gradient_magnitude_fixed(1, 3), 10922);
}

#[test]
fn front_blocks_around_burning_square() {
    let width = 10_u32;
    let height = 10_u32;
    let mut signs = vec![1_i8; (width * height) as usize];
    for y in 4..6 {
        for x in 4..6 {
            signs[(y * width + x) as usize] = -1;
        }
    }
    let cells = front_cells(&signs, width, height);
    assert_eq!(
        cells,
        vec![(3, 3), (4, 3), (5, 3), (3, 4), (5, 4), (3, 5), (4, 5), (5, 5)]
    );
}

#[test]
fn front_needs_both_signs() {
    assert!(front_cells(&vec![1_i8; 16], 4, 4).is_empty());
    assert!(front_cells(&vec![-1_i8; 16], 4, 4).is_empty());
    // Zero values are on neither side.
    let mut signs = vec![0_i8; 16];
    signs[5] = -1;
    assert!(front_cells(&signs, 4, 4).is_empty());
    signs[10] = 1;
    assert_eq!(front_cells(&signs, 4, 4), vec![(1, 1)]);
    // A one-row raster has no blocks.
    assert!(front_cells(&vec![-1_i8, 1], 2, 1).is_empty());
}

#[test]
fn stencil_inside_and_on_border() {
    assert_eq!(central_stencil(5, 5, 2, 2), Some((12, 13, 11, 17, 7)));
    assert_eq!(central_stencil(5, 4, 3, 2), Some((13, 14, 12, 18, 8)));
    assert_eq!(central_stencil(5, 5, 0, 2), None);
    assert_eq!(central_stencil(5, 5, 4, 2), None);
    assert_eq!(central_stencil(5, 5, 2, 0), None);
    assert_eq!(central_stencil(5, 5, 2, 4), None);
    assert_eq!(central_stencil(1, 1, 0, 0), None);
}
