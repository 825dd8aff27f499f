use graphite_studio::drawing::document::{BlendMode, DirtyRect};
use graphite_studio::drawing::history::{pixel_bounds, EditTransaction, History, Outcome};
use graphite_studio::drawing::layers::{Invalidation, LayerStack};

fn ids(stack: &LayerStack) -> Vec<u64> {
    stack.layers().iter().map(|l| l.id).collect()
}

#[test]
fn a_new_drawing_has_one_active_layer_to_redraw_whole() {
    let stack = LayerStack::new(40, 30);
    assert_eq!(stack.layer_count(), 1);
    assert_eq!(stack.active_layer_index(), 0);
    assert_eq!(stack.active_layer_id(), 1);
    assert_eq!(stack.active_layer_name(), "Layer 1");
    assert_eq!(stack.layers()[0].opacity, 255);
    assert!(stack.layers()[0].visible);
    assert_eq!(stack.layers()[0].blend_mode, BlendMode::Multiply);
    let inv = stack.invalidation();
    assert_eq!(inv.revision, 1);
    assert_eq!(inv.dirty, Some(DirtyRect::new(0, 0, 40, 30)));
}

#[test]
fn added_layers_are_numbered_and_become_active() {
    let mut stack = LayerStack::new(10, 10);
    assert_eq!(stack.add_layer(), 1);
    assert_eq!(stack.add_layer(), 2);
    assert_eq!(ids(&stack), vec![1, 2, 3]);
    assert_eq!(stack.active_layer_index(), 2);
    assert_eq!(stack.active_layer_name(), "Layer 3");
}

#[test]
fn adding_then_removing_a_layer_restores_the_list() {
    let mut stack = LayerStack::new(10, 10);
    stack.add_layer();
    stack.activate_layer(0);
    let before = ids(&stack);
    stack.add_layer();
    assert!(stack.remove_active_layer());
    assert_eq!(ids(&stack), before);
    assert_eq!(stack.active_layer_index(), 1);
}

#[test]
fn the_last_layer_cannot_be_removed() {
    let mut stack = LayerStack::new(10, 10);
    assert!(!stack.remove_active_layer());
    assert_eq!(stack.layer_count(), 1);
}

#[test]
fn removing_a_middle_layer_activates_the_one_that_took_its_place() {
    let mut stack = LayerStack::new(10, 10);
    stack.add_layer();
    stack.add_layer();
    stack.activate_layer(1);
    assert!(stack.remove_active_layer());
    assert_eq!(ids(&stack), vec![1, 3]);
    assert_eq!(stack.active_layer_index(), 1);
    assert_eq!(stack.active_layer_id(), 3);
}

#[test]
fn moving_up_then_down_restores_the_order() {
    let mut stack = LayerStack::new(10, 10);
    stack.add_layer();
    stack.add_layer();
    stack.activate_layer(0);
    assert!(stack.move_active_layer_up());
    assert_eq!(ids(&stack), vec![2, 1, 3]);
    assert_eq!(stack.active_layer_index(), 1);
    assert!(stack.move_active_layer_down());
    assert_eq!(ids(&stack), vec![1, 2, 3]);
    assert_eq!(stack.active_layer_index(), 0);
    assert!(!stack.move_active_layer_down());
    stack.activate_layer(2);
    assert!(!stack.move_active_layer_up());
}

#[test]
fn relative_moves_keep_the_active_layer_active() {
    let mut stack = LayerStack::new(10, 10);
    stack.add_layer();
    stack.add_layer();
    stack.add_layer();
    stack.activate_layer_by_id(2);
    assert!(stack.move_layer_relative(1, 4, true));
    assert_eq!(ids(&stack), vec![2, 3, 4, 1]);
    assert_eq!(stack.active_layer_id(), 2);
    assert!(stack.move_layer_relative(1, 2, false));
    assert_eq!(ids(&stack), vec![1, 2, 3, 4]);
    assert_eq!(stack.active_layer_index(), 1);
}

#[test]
fn refused_relative_moves_change_nothing() {
    let mut stack = LayerStack::new(10, 10);
    stack.add_layer();
    let revision = stack.invalidation().revision;
    assert!(!stack.move_layer_relative(1, 1, true));
    assert!(!stack.move_layer_relative(9, 1, true));
    assert!(!stack.move_layer_relative(1, 9, true));
    assert!(!stack.move_layer_relative(1, 2, false));
    assert_eq!(ids(&stack), vec![1, 2]);
    assert_eq!(stack.invalidation().revision, revision);
}

#[test]
fn layer_settings_change_only_when_different() {
    let mut stack = LayerStack::new(10, 10);
    assert!(!stack.set_layer_visible(0, true));
    assert!(stack.set_layer_visible(0, false));
    assert!(!stack.set_layer_visible(5, false));
    assert!(stack.set_layer_blend_mode(1, BlendMode::Screen));
    assert!(!stack.set_layer_blend_mode(1, BlendMode::Screen));
    assert!(!stack.set_layer_blend_mode(7, BlendMode::Screen));
    assert!(stack.set_layer_opacity(1, 128));
    assert!(!stack.set_layer_opacity(1, 128));
    let layer = &stack.layers()[0];
    assert!(!layer.visible);
    assert_eq!(layer.blend_mode, BlendMode::Screen);
    assert_eq!(layer.opacity, 128);
}

#[test]
fn renaming_trims_and_refuses_blank_names() {
    let mut stack = LayerStack::new(10, 10);
    assert!(stack.rename_layer(0, "  Sketch  ".to_string()));
    assert_eq!(stack.active_layer_name(), "Sketch");
    assert!(!stack.rename_layer(0, "Sketch".to_string()));
    assert!(!stack.rename_layer(0, "   ".to_string()));
    assert!(!stack.rename_layer(3, "Ink".to_string()));
    assert!(stack.rename_layer(0, "\u{3000}\t Ink \u{2028}\u{a0}".to_string()));
    assert_eq!(stack.active_layer_name(), "Ink");
    assert!(!stack.rename_layer(0, "\u{85}\u{200a}\u{1680}".to_string()));
    assert!(stack.rename_layer(0, "\u{200b}Ink".to_string()));
    assert_eq!(stack.active_layer_name(), "\u{200b}Ink");
}

#[test]
fn merging_down_needs_a_visible_layer_below() {
    let mut stack = LayerStack::new(10, 10);
    assert!(!stack.can_merge_down());
    stack.add_layer();
    assert!(stack.can_merge_down());
    stack.set_layer_visible(0, false);
    assert!(!stack.can_merge_down());
}

#[test]
fn the_active_layer_is_selected_when_nothing_is_picked() {
    let mut stack = LayerStack::new(10, 10);
    stack.add_layer();
    assert_eq!(stack.selected_layer_indices(), vec![1]);
    assert!(!stack.can_merge_selected());
}

#[test]
fn picking_toggling_and_ranges() {
    let mut stack = LayerStack::new(10, 10);
    stack.add_layer();
    stack.add_layer();
    stack.add_layer();
    stack.select_layer(1, false, false);
    assert_eq!(stack.selected_layer_indices(), vec![1]);
    assert_eq!(stack.active_layer_index(), 1);
    assert_eq!(stack.layer_selection().anchor, Some(2));
    stack.select_layer(3, true, false);
    assert_eq!(stack.selected_layer_indices(), vec![1, 3]);
    assert_eq!(stack.active_layer_index(), 3);
    assert!(stack.can_merge_selected());
    stack.select_layer(3, true, false);
    assert_eq!(stack.selected_layer_indices(), vec![1]);
    assert_eq!(stack.active_layer_index(), 1);
    stack.select_layer(1, true, false);
    assert_eq!(stack.selected_layer_indices(), vec![1]);
    stack.select_layer(3, false, true);
    assert_eq!(stack.layer_selection().ids, vec![2, 3, 4]);
    assert_eq!(stack.selected_layer_indices(), vec![1, 2, 3]);
    assert_eq!(stack.active_layer_index(), 3);
    stack.set_layer_visible(2, false);
    assert!(!stack.can_merge_selected());
    stack.select_layer(9, false, false);
    assert_eq!(stack.selected_layer_indices(), vec![1, 2, 3]);
}

#[test]
fn a_range_pick_without_an_anchor_starts_at_the_active_layer() {
    let mut stack = LayerStack::new(10, 10);
    stack.add_layer();
    stack.add_layer();
    stack.activate_layer(2);
    stack.select_layer(0, false, true);
    assert_eq!(stack.layer_selection().ids, vec![1, 2, 3]);
    assert_eq!(stack.layer_selection().anchor, Some(3));
    assert_eq!(stack.active_layer_index(), 0);
}

#[test]
fn marks_accumulate_until_taken() {
    let mut inv = Invalidation::new(100, 100);
    assert_eq!(inv.take_dirty(), Some(DirtyRect::new(0, 0, 100, 100)));
    inv.mark_dirty(DirtyRect::new(5, 5, 10, 10));
    inv.mark_dirty(DirtyRect::new(20, 1, 30, 6));
    inv.mark_dirty(DirtyRect::new(3, 3, 3, 9));
    assert_eq!(inv.revision, 3);
    assert_eq!(inv.take_dirty(), Some(DirtyRect::new(5, 1, 30, 10)));
    assert_eq!(inv.take_dirty(), None);
    inv.mark_all_dirty();
    assert_eq!(inv.take_dirty(), Some(DirtyRect::new(0, 0, 100, 100)));
}

#[test]
fn history_moves_entries_between_stacks() {
    let mut h: History<u32> = History::new(2);
    assert!(!h.can_undo());
    h.record(1);
    h.record(2);
    h.record(3);
    let e = h.take_undo();
    assert_eq!(e, Some(3));
    h.undone(3, Outcome::Applied);
    assert!(h.can_redo());
    assert_eq!(h.take_undo(), Some(2));
    h.undone(2, Outcome::Refused);
    assert_eq!(h.take_undo(), Some(2));
    h.undone(2, Outcome::Lost);
    assert!(!h.can_undo());
    assert_eq!(h.take_redo(), Some(3));
    h.redone(3, Outcome::Applied);
    assert_eq!(h.take_undo(), Some(3));
    assert_eq!(h.take_undo(), None);
}

#[test]
fn undo_then_redo_restores_the_stacks() {
    let mut h: History<u32> = History::default();
    h.record(7);
    h.record(8);
    let e = h.take_undo().unwrap();
    h.undone(e, Outcome::Applied);
    let e = h.take_redo().unwrap();
    h.redone(e, Outcome::Applied);
    assert!(!h.can_redo());
    assert_eq!(h.take_undo(), Some(8));
    assert_eq!(h.take_undo(), Some(7));
}

#[test]
fn recording_discards_redo_and_a_zero_limit_keeps_one() {
    let mut h: History<u32> = History::new(0);
    h.record(1);
    h.record(2);
    assert_eq!(h.take_undo(), Some(2));
    h.undone(2, Outcome::Applied);
    h.record(4);
    assert!(!h.can_redo());
    h.clear();
    assert!(!h.can_undo());
}

#[test]
fn pixel_bounds_are_the_smallest_enclosing_rectangle() {
    assert_eq!(pixel_bounds(&[], 10), None);
    assert_eq!(pixel_bounds(&[0], 10), Some(DirtyRect::new(0, 0, 1, 1)));
    assert_eq!(pixel_bounds(&[23, 5, 41], 10), Some(DirtyRect::new(1, 0, 6, 5)));
}

#[test]
fn rollback_restores_repeated_edits_and_only_invalidates_their_bounds() {
    let (width, height) = (32usize, 32usize);
    let mut mass = vec![0.0f32; width * height];
    let mut tx: EditTransaction<f32, ()> = EditTransaction::new();
    let a = 5 * width + 3;
    let b = 8 * width + 9;
    tx.remember(a, width * height, 1, mass[a], &());
    mass[a] = 0.5;
    tx.remember(a, width * height, 1, mass[a], &());
    mass[a] = 0.8;
    tx.remember(b, width * height, 1, mass[b], &());
    mass[b] = 0.9;
    let (restore, vectors, dirty) = tx.rollback(1, width).unwrap();
    assert_eq!(restore.len(), 2);
    assert_eq!(vectors, Some(()));
    for (index, before) in restore {
        mass[index] = before;
    }
    assert_eq!(mass[a], 0.);
    assert_eq!(mass[b], 0.);
    let dirty = dirty.unwrap();
    assert_eq!((dirty.min_x, dirty.min_y, dirty.max_x, dirty.max_y), (3, 5, 10, 9));
}

#[test]
fn edits_remember_first_states_and_belong_to_one_layer() {
    let mut tx: EditTransaction<u8, u32> = EditTransaction::new();
    assert!(tx.is_empty());
    tx.remember(100, 200, 7, 1, &40);
    tx.remember(64, 200, 9, 2, &41);
    tx.remember(100, 200, 9, 3, &42);
    assert!(!tx.is_empty());
    assert!(tx.rollback(9, 10).is_none());
    let mut tx: EditTransaction<u8, u32> = EditTransaction::new();
    tx.remember(199, 200, 7, 1, &40);
    tx.remember(0, 200, 8, 2, &41);
    tx.remember(199, 200, 8, 3, &42);
    let (restore, vectors, dirty) = tx.rollback(7, 10).unwrap();
    assert_eq!(restore, vec![(199, 1), (0, 2)]);
    assert_eq!(vectors, Some(40));
    let dirty = dirty.unwrap();
    assert_eq!((dirty.min_x, dirty.min_y, dirty.max_x, dirty.max_y), (0, 0, 10, 20));
    let empty: EditTransaction<u8, u32> = EditTransaction::new();
    assert!(empty.rollback(1, 10).is_none());
}
