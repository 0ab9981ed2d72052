use fire_sim_core::fuel::{
    bark_type_name, check_fuel_type_grid, create_test_fuel_grid, FuelGridSizeMismatch, FuelKind,
    FuelMapping,
};

#[test]
fn test_create_test_fuel_grid() {
    let grid = create_test_fuel_grid(10, 10);

    assert_eq!(grid.len(), 100);

    // Check checkerboard pattern
    assert_eq!(grid[0], 1); // (0,0) -> even sum
    assert_eq!(grid[1], 3); // (1,0) -> odd sum
    assert_eq!(grid[10], 3); // (0,1) -> odd sum
    assert_eq!(grid[11], 1); // (1,1) -> even sum
}

#[test]
fn test_fuel_mapping_dbca_wa() {
    let mapping = FuelMapping::new_dbca_wa();

    // Test valid fuel codes
    assert!(mapping.get_fuel(1).is_some()); // Jarrah -> stringybark
    assert!(mapping.get_fuel(2).is_some()); // Marri -> smooth bark
    assert!(mapping.get_fuel(3).is_some()); // Grassland -> dry grass

    // Test non-fuel codes
    assert!(mapping.get_fuel(0).is_none());
    assert!(mapping.get_fuel(8).is_none());
}

#[test]
fn test_custom_fuel_mapping() {
    let mut mappings = vec![None; 256];
    mappings[1] = Some(FuelKind::EucalyptusStringybark);
    mappings[2] = Some(FuelKind::DryGrass);

    let mapping = FuelMapping::custom(mappings);

    assert!(mapping.get_fuel(1).is_some());
    assert!(mapping.get_fuel(2).is_some());
    assert!(mapping.get_fuel(3).is_none());
}

#[test]
fn test_set_fuel_type_grid() {
    let grid = create_test_fuel_grid(10, 10);

    let result = check_fuel_type_grid(&grid, 10, 10);
    assert!(result.is_ok());
}

#[test]
fn test_set_fuel_type_grid_size_mismatch() {
    let grid = vec![1_u8; 50]; // Wrong size

    let result = check_fuel_type_grid(&grid, 10, 10);
    assert!(result.is_err());
}

#[test]
fn size_mismatch_reports_dimensions() {
    let grid = vec![1_u8; 50];
    assert_eq!(
        check_fuel_type_grid(&grid, 10, 10),
        Err(FuelGridSizeMismatch { width: 10, height: 10, expected: 100, actual: 50 })
    );
}

#[test]
fn dbca_wa_codes() {
    let m = FuelMapping::default();
    assert_eq!(m.get_fuel(1), Some(&FuelKind::EucalyptusStringybark));
    assert_eq!(m.get_fuel(2), Some(&FuelKind::EucalyptusSmoothBark));
    assert_eq!(m.get_fuel(3), Some(&FuelKind::DryGrass));
    assert_eq!(m.get_fuel(4), Some(&FuelKind::EucalyptusStringybark));
    assert_eq!(m.get_fuel(5), Some(&FuelKind::Shrubland));
    assert_eq!(m.get_fuel(6), Some(&FuelKind::Shrubland));
    assert_eq!(m.get_fuel(7), Some(&FuelKind::GreenVegetation));
    assert_eq!(m.get_fuel(9), None);
    assert_eq!(m.get_fuel(255), None);
    assert_eq!(m.codes().len(), 256);
}

#[test]
fn set_fuel_then_get() {
    let mut m = FuelMapping::custom(vec![None; 4]);
    m.set_fuel(2, Some(FuelKind::Rock));
    assert_eq!(m.get_fuel(2), Some(&FuelKind::Rock));
    assert_eq!(m.get_fuel(1), None);
    // Codes past the end of the table are ignored.
    m.set_fuel(9, Some(FuelKind::Water));
    assert_eq!(m.get_fuel(9), None);
    assert_eq!(m.codes().len(), 4);
    m.set_fuel(2, None);
    assert_eq!(m.get_fuel(2), None);
}

#[test]
fn fuel_ids() {
    assert_eq!(FuelKind::from_id(1), Some(FuelKind::EucalyptusStringybark));
    assert_eq!(FuelKind::from_id(6), Some(FuelKind::GreenVegetation));
    assert_eq!(FuelKind::from_id(0), None);
    assert_eq!(FuelKind::from_id(7), None);
    assert_eq!(FuelKind::from_id(10), None);
    assert_eq!(FuelKind::Water.id(), 10);
    assert_eq!(FuelKind::Rock.id(), 11);
    assert_eq!(FuelKind::Shrubland.id(), 4);
}

#[test]
fn bark_names() {
    assert_eq!(bark_type_name(0), "Smooth");
    assert_eq!(bark_type_name(1), "Fibrous");
    assert_eq!(bark_type_name(2), "Stringybark");
    assert_eq!(bark_type_name(3), "Ironbark");
    assert_eq!(bark_type_name(4), "Paperbark");
    assert_eq!(bark_type_name(255), "None");
}

#[test]
fn checkerboard_non_square() {
    let grid = create_test_fuel_grid(3, 2);
    assert_eq!(grid, vec![1, 3, 1, 3, 1, 3]);
    assert!(create_test_fuel_grid(0, 5).is_empty());
}
