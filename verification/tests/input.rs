use graphite_studio::input::{pen_contact, ContactStep, PenPhase};

#[test]
fn a_new_pen_down_ends_the_missing_release_first() {
    let s = pen_contact(Some(1), 9, PenPhase::Down, true);
    assert_eq!(s, ContactStep { release: true, hover: false, emit: true, owner: Some(9) });
}

#[test]
fn hover_by_the_owner_ends_the_contact_and_unowned_moves_do_not_draw() {
    let s = pen_contact(Some(1), 1, PenPhase::Hover, true);
    assert!(s.release && !s.emit && s.owner.is_none() && s.hover);
    let m = pen_contact(s.owner, 1, PenPhase::Move, true);
    assert!(!m.emit && !m.release);
    let d = pen_contact(m.owner, 1, PenPhase::Down, true);
    assert!(d.emit && d.owner == Some(1));
}

#[test]
fn presses_outside_the_canvas_open_nothing() {
    let s = pen_contact(None, 3, PenPhase::Down, false);
    assert_eq!(s, ContactStep { release: false, hover: false, emit: false, owner: None });
}

#[test]
fn release_draws_last_frame_and_closes() {
    let s = pen_contact(Some(4), 4, PenPhase::Up, false);
    assert!(s.emit && s.owner.is_none() && !s.release);
}

#[test]
fn cancels_from_other_pens_are_ignored() {
    assert_eq!(pen_contact(Some(4), 5, PenPhase::Cancel, true).owner, Some(4));
    let c = pen_contact(Some(4), 0, PenPhase::Cancel, true);
    assert!(c.release && c.owner.is_none());
    assert_eq!(PenPhase::default(), PenPhase::Hover);
}
