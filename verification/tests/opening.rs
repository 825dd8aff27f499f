use graphite_studio::import::psd::vectors::{paths, vector_mask, FixedPoint};
use graphite_studio::import::{layer_pixels_match, opening_active_layer, placed_index};

fn record(kind: u16, body: &[u8]) -> Vec<u8> {
    let mut out = kind.to_be_bytes().to_vec();
    out.extend_from_slice(body);
    out.resize(26, 0);
    out
}

fn knot(selector: u16, points: [(i32, i32); 3]) -> Vec<u8> {
    let mut body = Vec::new();
    for (x, y) in points {
        body.extend_from_slice(&y.to_be_bytes());
        body.extend_from_slice(&x.to_be_bytes());
    }
    record(selector, &body)
}

#[test]
fn the_top_visible_layer_becomes_active() {
    assert_eq!(opening_active_layer(&[true, false, true, false]), 2);
    assert_eq!(opening_active_layer(&[false, false]), 1);
    assert_eq!(opening_active_layer(&[true]), 0);
}

#[test]
fn layer_sizes_must_match_their_pixels() {
    assert!(layer_pixels_match(3, 4, 12));
    assert!(!layer_pixels_match(3, 4, 11));
    assert!(!layer_pixels_match(usize::MAX, 2, 0));
}

#[test]
fn offset_layers_are_clipped_to_the_canvas() {
    assert_eq!(placed_index(0, 0, 4, 5, 10, 10), Some(11));
    assert_eq!(placed_index(2, 3, 4, 5, 10, 10), Some(43));
    assert_eq!(placed_index(-1, 0, 4, 0, 10, 10), None);
    assert_eq!(placed_index(-1, 0, 4, 1, 10, 10), Some(0));
    assert_eq!(placed_index(8, 0, 4, 2, 10, 10), None);
    assert_eq!(placed_index(0, 9, 4, 4, 10, 10), None);
    assert_eq!(placed_index(0, -2, 4, 9, 10, 10), Some(1));
}

#[test]
fn path_records_read_back_closed_and_open_subpaths() {
    let mut data = record(6, &[]);
    data.extend(record(8, &[0, 1]));
    data.extend(record(0, &[0, 2, 0, 1]));
    data.extend(knot(2, [(1, 2), (3, 4), (5, 6)]));
    data.extend(knot(1, [(-1, -2), (0, 1 << 24), (7, 8)]));
    data.extend(record(3, &[0, 1, 0, 0]));
    data.extend(knot(5, [(9, 9), (10, 11), (12, 13)]));
    let p = paths(&data).unwrap();
    assert!(p.initial_fill);
    assert_eq!(p.paths.len(), 2);
    assert!(p.paths[0].closed);
    assert_eq!(p.paths[0].operation, 1);
    assert_eq!(p.paths[0].knots.len(), 2);
    assert_eq!(p.paths[0].knots[0].anchor, FixedPoint { x: 3, y: 4 });
    assert_eq!(p.paths[0].knots[1].before, FixedPoint { x: -1, y: -2 });
    assert_eq!(p.paths[0].knots[1].anchor, FixedPoint { x: 0, y: 1 << 24 });
    assert!(!p.paths[1].closed);
    assert_eq!(p.paths[1].knots[0].after, FixedPoint { x: 12, y: 13 });
}

#[test]
fn malformed_path_records_are_refused() {
    let bad_op = record(0, &[0, 0, 0, 4]);
    assert_eq!(paths(&bad_op).unwrap_err(), "Unsupported Photoshop path operation.");
    let mut wrong_knot = record(0, &[0, 1, 0, 0]);
    wrong_knot.extend(knot(4, [(0, 0); 3]));
    assert_eq!(paths(&wrong_knot).unwrap_err(), "Invalid Photoshop B\u{e9}zier knot.");
    let mut short = record(3, &[0, 2, 0, 0]);
    short.extend(knot(4, [(0, 0); 3]));
    assert_eq!(paths(&short).unwrap_err(), "Truncated PSD data");
    assert_eq!(paths(&record(9, &[])).unwrap_err(), "Invalid Photoshop path record.");
    assert_eq!(paths(&record(8, &[0, 2])).unwrap_err(), "Invalid Photoshop path fill rule.");
    let mut tail = record(6, &[]);
    tail.extend([0, 0, 1]);
    assert_eq!(paths(&tail).unwrap_err(), "Truncated Photoshop path.");
    let mut zeros = record(6, &[]);
    zeros.extend([0, 0, 0]);
    assert!(paths(&zeros).unwrap().paths.is_empty());
    let unfinished = record(0, &[0xFF, 0xFF, 0, 0]);
    assert_eq!(paths(&unfinished).unwrap_err(), "Truncated PSD data");
}

#[test]
fn vector_masks_check_version_and_flags() {
    let mut mask = 3u32.to_be_bytes().to_vec();
    mask.extend(1u32.to_be_bytes());
    mask.extend(record(6, &[]));
    let (p, inverted) = vector_mask(&mask).unwrap();
    assert!(inverted);
    assert!(p.paths.is_empty());
    let mut disabled = 3u32.to_be_bytes().to_vec();
    disabled.extend(4u32.to_be_bytes());
    assert_eq!(vector_mask(&disabled).unwrap_err(), "Disabled Photoshop vector masks are not supported yet.");
    let mut old = 2u32.to_be_bytes().to_vec();
    old.extend(0u32.to_be_bytes());
    assert_eq!(vector_mask(&old).unwrap_err(), "Unsupported Photoshop vector mask version.");
}

#[test]
fn paths_with_too_many_subpaths_are_refused() {
    let mut data = Vec::new();
    for _ in 0..4097 {
        data.extend(record(0, &[0, 0, 0, 0]));
    }
    assert_eq!(paths(&data).unwrap_err(), "Photoshop path is too complex.");
    data.truncate(26 * 4096);
    assert_eq!(paths(&data).unwrap().paths.len(), 4096);
}
