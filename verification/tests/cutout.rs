use graphite_studio::drawing::cutout::{capture_bounds, crop};
use graphite_studio::drawing::document::DirtyRect;

#[test]
fn cutouts_cover_exactly_the_inked_pixels() {
    let width = 6;
    let mut inked = vec![false; width * 4];
    assert_eq!(capture_bounds(&inked, width), None);
    inked[width + 2] = true;
    inked[3 * width + 4] = true;
    let r = capture_bounds(&inked, width).unwrap();
    assert_eq!((r.min_x, r.min_y, r.max_x, r.max_y), (2, 1, 5, 4));
    inked[0] = true;
    let r = capture_bounds(&inked, width).unwrap();
    assert_eq!((r.min_x, r.min_y, r.max_x, r.max_y), (0, 0, 5, 4));
}

#[test]
fn crops_copy_what_the_selection_allows() {
    let width = 4;
    let values: Vec<u32> = (0..16).collect();
    let mut allowed = vec![true; 16];
    allowed[6] = false;
    let rect = DirtyRect::new(1, 1, 3, 3);
    assert_eq!(crop(&values, &allowed, width, rect, 99), vec![5, 99, 9, 10]);
    let empty = DirtyRect::new(2, 2, 2, 3);
    assert!(crop(&values, &allowed, width, empty, 99).is_empty());
}
