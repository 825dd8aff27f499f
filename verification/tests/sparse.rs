use graphite_studio::drawing::sparse::SparseTiles;

#[test]
fn sparse_layer_allocates_only_touched_tiles() {
    let mut sparse = SparseTiles::new(256, 256, 0.0f32);
    let graphite_mass = 0.5f32;
    sparse.set(1, graphite_mass, false);
    sparse.set(255 * 256 + 255, graphite_mass, false);
    assert_eq!(sparse.allocated_tile_count(), 2);
    assert_eq!(sparse.get(1), 0.5);
    assert_eq!(sparse.get(128 * 256 + 128), 0.0);
}

#[test]
fn tiles_are_32_pixels_square_row_by_row() {
    let sparse = SparseTiles::new(100, 70, 0u8);
    assert_eq!(sparse.location(0), (0, 0));
    assert_eq!(sparse.location(31), (0, 31));
    assert_eq!(sparse.location(32), (1, 0));
    assert_eq!(sparse.location(100), (0, 32));
    assert_eq!(sparse.location(33 * 100 + 99), (4 + 3, 32 + 3));
}

#[test]
fn empty_states_do_not_allocate_and_clear_forgets() {
    let mut sparse = SparseTiles::new(64, 64, 0u8);
    sparse.set(5, 0, true);
    assert_eq!(sparse.allocated_tile_count(), 0);
    sparse.set(5, 9, false);
    sparse.set(6, 0, true);
    assert_eq!(sparse.allocated_tile_count(), 1);
    assert_eq!(sparse.get(5), 9);
    sparse.set(5, 0, true);
    assert_eq!(sparse.get(5), 0);
    sparse.clear();
    assert_eq!(sparse.allocated_tile_count(), 0);
}

#[test]
fn capture_keeps_only_non_empty_pixels() {
    let mut sparse = SparseTiles::new(40, 2, 0u8);
    let mut states = vec![0u8; 80];
    let mut empty = vec![true; 80];
    states[3] = 7;
    empty[3] = false;
    states[79] = 8;
    empty[79] = false;
    states[4] = 5;
    sparse.capture(&states, &empty);
    assert_eq!(sparse.allocated_tile_count(), 2);
    assert_eq!(sparse.get(3), 7);
    assert_eq!(sparse.get(4), 0);
    assert_eq!(sparse.get(79), 8);
}

#[test]
fn stores_fit_only_their_own_canvas() {
    let mut sparse = SparseTiles::new(100, 70, 0u8);
    assert!(sparse.fits(100, 70));
    assert!(!sparse.fits(70, 100));
    sparse.set(99 * 1 + 69 * 100, 3, false);
    assert_eq!(sparse.allocated_tile_count(), 1);
    assert!(sparse.fits(100, 70));
    assert!(!sparse.fits(100, 71));
}
