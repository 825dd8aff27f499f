use graphite_studio::drawing::orientation::QuarterTurn;

#[test]
fn quarter_turns_move_rows_into_columns() {
    let mut values = vec![0u8, 1, 2, 3, 4, 5];
    let turn = QuarterTurn::new(3, 2, true);
    assert_eq!(turn.size(), (2, 3));
    turn.grid(&mut values);
    assert_eq!(values, vec![3, 0, 4, 1, 5, 2]);
    let mut values = vec![0u8, 1, 2, 3, 4, 5];
    QuarterTurn::new(3, 2, false).grid(&mut values);
    assert_eq!(values, vec![2, 5, 1, 4, 0, 3]);
}

#[test]
fn turning_back_restores_the_grid() {
    let original: Vec<u32> = (0..12).collect();
    let mut values = original.clone();
    QuarterTurn::new(4, 3, true).grid(&mut values);
    QuarterTurn::new(3, 4, false).grid(&mut values);
    assert_eq!(values, original);
    for _ in 0..2 {
        QuarterTurn::new(4, 3, true).grid(&mut values);
        QuarterTurn::new(3, 4, true).grid(&mut values);
    }
    assert_eq!(values, original);
}

#[test]
fn mirrors_flip_rows_or_columns_and_undo_themselves() {
    let mut values = vec![0u8, 1, 2, 3, 4, 5];
    let mirror = QuarterTurn::mirror(3, 2, true);
    assert_eq!(mirror.size(), (3, 2));
    mirror.grid(&mut values);
    assert_eq!(values, vec![2, 1, 0, 5, 4, 3]);
    mirror.grid(&mut values);
    assert_eq!(values, vec![0, 1, 2, 3, 4, 5]);
    QuarterTurn::mirror(3, 2, false).grid(&mut values);
    assert_eq!(values, vec![3, 4, 5, 0, 1, 2]);
}

#[test]
fn growing_the_canvas_shifts_samples_and_tiles_texture() {
    let grow = QuarterTurn::expand(2, 2, 4, 3, 1, 1);
    assert!(grow.expanded());
    assert_eq!(grow.size(), (4, 3));
    assert_eq!(grow.index(3), 10);
    let mut values = vec![1u8, 2, 3, 4];
    grow.grid(&mut values);
    assert_eq!(values, vec![0, 0, 0, 0, 0, 1, 2, 0, 0, 3, 4, 0]);
    let mut texture = vec![1u8, 2, 3, 4];
    grow.tiled_grid(&mut texture);
    assert_eq!(texture, vec![4, 3, 4, 3, 2, 1, 2, 1, 4, 3, 4, 3]);
}

#[test]
fn tiling_without_growth_is_a_plain_turn() {
    let mut values = vec![0u8, 1, 2, 3, 4, 5];
    let turn = QuarterTurn::new(3, 2, true);
    assert!(!turn.expanded());
    turn.tiled_grid(&mut values);
    assert_eq!(values, vec![3, 0, 4, 1, 5, 2]);
}
