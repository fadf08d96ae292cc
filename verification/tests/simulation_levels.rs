use geostat::simulation::{grid_level, levels_2d, levels_3d};

#[test]
fn grid_level_assigns_coarse_subgrids() {
    assert_eq!(grid_level(&[0, 0], 3), 3);
    assert_eq!(grid_level(&[8, 8], 3), 3);
    assert_eq!(grid_level(&[4, 0], 3), 2);
    assert_eq!(grid_level(&[2, 2], 3), 1);
    assert_eq!(grid_level(&[3, 1], 3), 0);
    assert_eq!(grid_level(&[6, 4], 3), 1);
}

#[test]
fn levels_follow_the_storage_order_of_the_cells() {
    assert_eq!(levels_2d(3, 9, 1), vec![1, 0, 1, 0, 0, 0, 1, 0, 1]);
    assert_eq!(levels_3d(2, 2, 8, 1), vec![1, 0, 0, 0, 0, 0, 0, 0]);
}
