use graphite_studio::export::psd_vectors::{append, blank, resources, LayerPaths, StrokePath};
use graphite_studio::import::psd::vectors::{paths, FixedPoint, PathKnot};

fn knot(x: i32, y: i32) -> PathKnot {
    let p = FixedPoint { x, y };
    PathKnot { before: p, anchor: p, after: p }
}

#[test]
fn written_paths_read_back_as_the_same_knots() {
    let knots = vec![knot(0, 0), knot(1 << 24, -5), knot(-(1 << 20), 1 << 23)];
    let mut data = blank();
    append(&mut data, &knots, true);
    assert_eq!(data.len(), 26 * 5);
    assert_eq!(&data[26..30], &[0, 0, 0, 3]);
    let read = paths(&data).unwrap();
    assert!(!read.initial_fill);
    assert_eq!(read.paths.len(), 1);
    assert!(read.paths[0].closed);
    assert_eq!(read.paths[0].operation, 0);
    assert_eq!(read.paths[0].knots, knots);
}

#[test]
fn long_open_paths_continue_as_adjacent_subpaths() {
    let knots: Vec<PathKnot> = (0..70000).map(|i| knot(i, -i)).collect();
    let mut data = blank();
    append(&mut data, &knots, false);
    let read = paths(&data).unwrap();
    assert_eq!(read.paths.len(), 2);
    assert_eq!(read.paths[0].knots.len(), 65535);
    assert_eq!(read.paths[1].knots.len(), 70000 - 65535);
    assert!(!read.paths[1].closed);
    assert_eq!(read.paths[1].knots[0], knot(65535, -65535));
}

#[test]
fn few_strokes_get_a_resource_each() {
    let layers = vec![
        LayerPaths {
            id: 7,
            strokes: vec![
                StrokePath { label: "Line".to_string(), knots: vec![knot(1, 2), knot(3, 4)], closed: false },
                StrokePath { label: "Empty".to_string(), knots: vec![], closed: false },
                StrokePath { label: "Box".to_string(), knots: vec![knot(5, 6)], closed: true },
            ],
        },
    ];
    let mut out = Vec::new();
    resources(&mut out, &layers);
    assert_eq!(&out[..4], b"8BIM");
    assert_eq!(u16::from_be_bytes([out[4], out[5]]), 2000);
    let name_len = out[6] as usize;
    assert_eq!(&out[7..7 + name_len], b"Layer 7 - 1 Line");
    let mut pos = 7 + name_len + (name_len + 1) % 2;
    let size = u32::from_be_bytes(out[pos..pos + 4].try_into().unwrap()) as usize;
    pos += 4;
    let first = paths(&out[pos..pos + size]).unwrap();
    assert_eq!(first.paths[0].knots, vec![knot(1, 2), knot(3, 4)]);
    pos += size + size % 2;
    assert_eq!(&out[pos..pos + 4], b"8BIM");
    assert_eq!(u16::from_be_bytes([out[pos + 4], out[pos + 5]]), 2001);
    let name_len = out[pos + 6] as usize;
    assert_eq!(&out[pos + 7..pos + 7 + name_len], b"Layer 7 - 3 Box");
}

#[test]
fn many_strokes_are_combined_per_layer() {
    let strokes: Vec<StrokePath> = (0..999)
        .map(|i| StrokePath { label: format!("S{i}"), knots: vec![knot(i, i)], closed: false })
        .collect();
    let layers = vec![LayerPaths { id: 3, strokes }, LayerPaths { id: 4, strokes: vec![] }];
    let mut out = Vec::new();
    resources(&mut out, &layers);
    assert_eq!(u16::from_be_bytes([out[4], out[5]]), 2000);
    let name_len = out[6] as usize;
    assert_eq!(&out[7..7 + name_len], b"Layer 3 - paths");
    let pos = 7 + name_len + (name_len + 1) % 2;
    let size = u32::from_be_bytes(out[pos..pos + 4].try_into().unwrap()) as usize;
    let combined = paths(&out[pos + 4..pos + 4 + size]).unwrap();
    assert_eq!(combined.paths.len(), 999);
    assert_eq!(out.len(), pos + 4 + size + size % 2);
}
