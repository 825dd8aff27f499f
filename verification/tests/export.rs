use graphite_studio::drawing::document::{BlendMode, DirtyRect};
use graphite_studio::export::psd_layers::{
    key, occupied_bounds, paper_layer, push_shape_layer, vector_layer_name, write_info, write_layered_psd,
    write_merged, write_record, LayerHead, LayerShape,
};
use graphite_studio::export::psd_vectors::{resource, solid_color, tagged};
use graphite_studio::export::{
    rgba_to_rgb, write_flat_rgb_psd16, write_flat_rgb_psd8, write_psd_header_with_resources, PsdBitDepth,
    SaveFormat, SaveOptions,
};
use graphite_studio::import::psd::layers::read_records;
use graphite_studio::import::psd::Cursor;

fn fixed_dpi(dpi: f32) -> u32 {
    (dpi.clamp(1.0, 65_535.0) * 65_536.0).round() as u32
}

fn be16(b: &[u8], at: usize) -> u16 {
    u16::from_be_bytes([b[at], b[at + 1]])
}

fn be32(b: &[u8], at: usize) -> u32 {
    u32::from_be_bytes(b[at..at + 4].try_into().unwrap())
}

#[test]
fn detects_supported_extensions_case_insensitively() {
    assert_eq!(SaveFormat::from_path("drawing.PNG"), Some(SaveFormat::Png));
    assert_eq!(SaveFormat::from_path("drawing.bmp"), Some(SaveFormat::Bmp));
    assert_eq!(SaveFormat::from_path("drawing.JpEg"), Some(SaveFormat::Jpeg));
    assert_eq!(SaveFormat::from_path("drawing.psd"), Some(SaveFormat::Psd));
    assert_eq!(SaveFormat::from_path("drawing.tif"), None);
}

#[test]
fn psd_depth_defaults_to_sixteen_bits() {
    assert_eq!(PsdBitDepth::default(), PsdBitDepth::Sixteen);
}

#[test]
fn writes_8_bit_psd_header_and_resolution_resource() {
    let rgb = vec![255, 0, 0, 0, 255, 0];
    let mut bytes = Vec::new();
    write_flat_rgb_psd8(&mut bytes, &rgb, 2, 1, fixed_dpi(300.0)).unwrap();

    assert_eq!(&bytes[0..4], b"8BPS");
    assert_eq!(u16::from_be_bytes([bytes[4], bytes[5]]), 1);
    assert_eq!(u16::from_be_bytes([bytes[12], bytes[13]]), 3);
    assert_eq!(u32::from_be_bytes(bytes[14..18].try_into().unwrap()), 1);
    assert_eq!(u32::from_be_bytes(bytes[18..22].try_into().unwrap()), 2);
    assert_eq!(u16::from_be_bytes(bytes[22..24].try_into().unwrap()), 8);
    assert!(bytes.windows(4).any(|window| window == b"8BIM"));
}

#[test]
fn writes_true_16_bit_psd_samples() {
    let rgb = vec![0x1234, 0x5678, 0x9abc];
    let mut bytes = Vec::new();
    write_flat_rgb_psd16(&mut bytes, &rgb, 1, 1, fixed_dpi(300.0)).unwrap();

    assert_eq!(u16::from_be_bytes(bytes[22..24].try_into().unwrap()), 16);
    assert_eq!(&bytes[bytes.len() - 6..], &[0x12, 0x34, 0x56, 0x78, 0x9a, 0xbc]);
}

#[test]
fn flat_writers_refuse_mismatched_sample_counts_without_writing() {
    let mut bytes = vec![7u8];
    let e = write_flat_rgb_psd8(&mut bytes, &[1, 2, 3], 2, 1, 0).unwrap_err();
    assert_eq!(e, "RGB byte count does not match PSD dimensions");
    let e = write_flat_rgb_psd16(&mut bytes, &[1, 2], 1, 1, 0).unwrap_err();
    assert_eq!(e, "RGB sample count does not match PSD dimensions");
    assert_eq!(bytes, vec![7u8]);
}

#[test]
fn flat_8_bit_planes_follow_the_header() {
    let rgb = vec![1, 2, 3, 4, 5, 6];
    let mut bytes = Vec::new();
    write_flat_rgb_psd8(&mut bytes, &rgb, 2, 1, fixed_dpi(72.0)).unwrap();
    assert_eq!(&bytes[bytes.len() - 8..], &[0, 0, 1, 4, 2, 5, 3, 6]);
}

#[test]
fn header_errors_name_each_refusal() {
    let mut out = Vec::new();
    assert_eq!(
        write_psd_header_with_resources(&mut out, 0, 5, 0, 8, &[]).unwrap_err(),
        "PSD version 1 requires dimensions from 1 to 30000 pixels"
    );
    assert_eq!(
        write_psd_header_with_resources(&mut out, 30_001, 5, 0, 8, &[]).unwrap_err(),
        "PSD version 1 requires dimensions from 1 to 30000 pixels"
    );
    assert_eq!(
        write_psd_header_with_resources(&mut out, 5, 5, 0, 32, &[]).unwrap_err(),
        "Graphite Studio PSD export supports 8 or 16 bits/channel"
    );
    assert!(out.is_empty());
}

#[test]
fn header_stores_resolution_in_fixed_point() {
    let mut out = Vec::new();
    write_psd_header_with_resources(&mut out, 3, 2, fixed_dpi(300.0), 16, &[9, 9]).unwrap();
    assert_eq!(out.len(), 26 + 4 + 4 + 28 + 2 + 4);
    assert_eq!(be32(&out, 14), 2);
    assert_eq!(be32(&out, 18), 3);
    assert_eq!(be32(&out, 30), 30);
    assert_eq!(&out[34..38], b"8BIM");
    assert_eq!(be16(&out, 38), 1005);
    assert_eq!(be32(&out, 46), 300 * 65_536);
    assert_eq!(&out[62..64], &[9, 9]);
    assert_eq!(&out[64..68], &[0, 0, 0, 0]);
}

#[test]
fn rgba_composites_over_white() {
    assert_eq!(rgba_to_rgb(&[10, 20, 30, 255, 0, 0, 0, 0, 100, 100, 100, 128]), vec![10, 20, 30, 255, 255, 255, 177, 177, 177]);
    assert_eq!(rgba_to_rgb(&[1, 2, 3]), Vec::<u8>::new());
}

#[test]
fn save_format_labels_and_options() {
    assert_eq!(SaveFormat::from_extension("JPG"), Some(SaveFormat::Jpeg));
    assert_eq!(SaveFormat::from_extension(""), None);
    assert_eq!(PsdBitDepth::Eight.bits(), 8);
    assert_eq!(PsdBitDepth::Sixteen.bits(), 16);
    assert_eq!(SaveOptions::default().psd_bit_depth, PsdBitDepth::Sixteen);
}

#[test]
fn tagged_blocks_pad_odd_payloads() {
    let mut out = Vec::new();
    tagged(&mut out, b"SoCo", &[1, 2, 3]);
    assert_eq!(out, vec![0x38, 0x42, 0x49, 0x4D, b'S', b'o', b'C', b'o', 0, 0, 0, 3, 1, 2, 3, 0]);
}

#[test]
fn resources_pad_name_and_payload() {
    let mut out = Vec::new();
    resource(&mut out, 4000, "ab", &[5]);
    assert_eq!(out, vec![0x38, 0x42, 0x49, 0x4D, 0x0F, 0xA0, 2, b'a', b'b', 0, 0, 0, 0, 1, 5, 0]);
}

#[test]
fn solid_color_holds_doubles_of_each_channel() {
    let b = solid_color([255, 0, 128]);
    let find = |key: &[u8]| b.windows(4).position(|w| w == key).unwrap();
    let red = find(b"Rd  ") + 8;
    assert_eq!(f64::from_be_bytes(b[red..red + 8].try_into().unwrap()), 255.0);
    let blue = find(b"Bl  ") + 8;
    assert_eq!(f64::from_be_bytes(b[blue..blue + 8].try_into().unwrap()), 128.0);
    assert_eq!(be32(&b, 0), 16);
}

fn layer(name: &str, bounds: DirtyRect, mode: BlendMode, shape: Option<LayerShape>) -> LayerHead {
    LayerHead { opacity: 128, bounds, name: name.to_string(), visible: true, mode, id: 7, shape }
}

#[test]
fn record_places_opacity_after_blend_key() {
    let mut out = Vec::new();
    write_record(&mut out, &layer("Layer", DirtyRect::new(0, 0, 1, 1), BlendMode::Multiply, None), 8).unwrap();
    // Rectangle, channel count, four channel descriptors, then signature and key.
    assert_eq!(&out[42..46], b"8BIM");
    assert_eq!(&out[46..50], b"mul ");
    assert_eq!(out[50], 128);
    assert_eq!(be32(&out, 20), 3);
}

#[test]
fn written_records_read_back() {
    let layers = vec![
        paper_layer(2, 2),
        LayerHead { visible: false, ..layer("Caf\u{e9} \u{1F58C}", DirtyRect::new(0, 1, 2, 2), BlendMode::Screen, None) },
        layer("Shape", DirtyRect::new(0, 0, 0, 0), BlendMode::Darken, Some(LayerShape { color: [1, 2, 3], mask: vec![4, 5, 6] })),
    ];
    let pixels = vec![vec![[0u16; 4]; 4], vec![[9u16; 4]; 2], vec![]];
    let mut info = Vec::new();
    write_info(&mut info, &layers, &pixels, 16).unwrap();
    assert_eq!(info.len() % 2, 0);
    let mut r = Cursor::new(&info);
    let records = read_records(&mut r).unwrap();
    assert_eq!(records.len(), 3);
    assert_eq!(records[0].blocks.name, "Paper");
    assert_eq!(records[1].blocks.name, "Caf\u{e9} \u{1F58C}");
    assert!(!records[1].visible);
    assert_eq!(records[1].blocks.blend, b"scrn");
    assert_eq!((records[1].bounds.top, records[1].bounds.left, records[1].bounds.bottom, records[1].bounds.right), (1, 0, 2, 2));
    assert_eq!(records[1].channels, vec![(0, 6), (1, 6), (2, 6), (-1, 6)]);
    assert!(records[2].channels.is_empty());
    assert_eq!(records[2].blocks.vector, Some(&[4u8, 5, 6][..]));
    assert!(records[2].blocks.fill.is_some());
}

#[test]
fn oversized_channels_are_refused() {
    let mut out = Vec::new();
    let big = layer("Huge", DirtyRect::new(0, 0, 70_000, 70_000), BlendMode::Normal, None);
    assert_eq!(write_record(&mut out, &big, 8).unwrap_err(), "PSD layer channel exceeds 4 GB");
    assert!(out.is_empty());
}

#[test]
fn blend_keys_are_photoshop_codes() {
    assert_eq!(&key(BlendMode::Normal), b"norm");
    assert_eq!(&key(BlendMode::Lighten), b"lite");
    assert_eq!(&key(BlendMode::Saturation), b"sat ");
}

#[test]
fn occupied_bounds_enclose_marked_pixels() {
    let grid = [false, false, false, false, true, false, false, false, true];
    assert_eq!(occupied_bounds(3, 3, &grid), DirtyRect::new(1, 1, 3, 3));
    assert_eq!(occupied_bounds(3, 3, &[false; 9]), DirtyRect::new(0, 0, 1, 1));
    assert_eq!(occupied_bounds(0, 0, &[]), DirtyRect::new(0, 0, 1, 1));
}

#[test]
fn shape_layers_take_ids_after_listed_records() {
    let mut layers = vec![paper_layer(4, 4)];
    let name = vector_layer_name("Sketch", 2, "Pencil");
    assert_eq!(name, "Vector - Sketch - 2 Pencil");
    push_shape_layer(&mut layers, 77, name, BlendMode::Multiply, LayerShape { color: [0, 0, 0], mask: vec![] }).unwrap();
    assert_eq!(layers[1].id, 0x4000_0001);
    assert!(!layers[1].visible);
    assert_eq!(layers[1].opacity, 77);
    let mut full: Vec<LayerHead> = (0..32766).map(|_| paper_layer(1, 1)).collect();
    let e = push_shape_layer(&mut full, 1, String::new(), BlendMode::Normal, LayerShape { color: [0, 0, 0], mask: vec![] });
    assert_eq!(e.unwrap_err(), "Too many native shape layers for PSD");
    assert_eq!(full.len(), 32766);
}

#[test]
fn layered_file_replaces_the_empty_layer_section() {
    let layers = vec![paper_layer(1, 1)];
    let pixels = vec![vec![[255u16; 4]]];
    let mut out = Vec::new();
    write_layered_psd(&mut out, 1, 1, fixed_dpi(300.0), PsdBitDepth::Eight, &[], Some(&[1, 2]), 1, &layers, &pixels, &[[10, 20, 30]]).unwrap();
    assert_eq!(&out[0..4], b"8BPS");
    assert_eq!(&out[out.len() - 5..], &[0, 0, 10, 20, 30]);
    assert!(out.windows(25).any(|w| w == b"GraphiteStudio.Project.v1"));
    let mut bad = Vec::new();
    let e = write_layered_psd(&mut bad, 1, 1, 0, PsdBitDepth::Sixteen, &[], None, 32767, &layers, &pixels, &[]);
    assert_eq!(e.unwrap_err(), "PSD supports at most 32766 drawing layers plus paper");
    assert!(bad.is_empty());
}

#[test]
fn merged_planes_are_big_endian_at_sixteen_bits() {
    let mut out = Vec::new();
    write_merged(&mut out, &[[0x0102, 0x0304, 0x0506]], 16);
    assert_eq!(out, vec![0, 0, 1, 2, 3, 4, 5, 6]);
}

#[test]
fn bare_file_names_name_their_save_format() {
    assert_eq!(SaveFormat::from_path("a.b.Psd"), Some(SaveFormat::Psd));
    assert_eq!(SaveFormat::from_path(".png"), None);
    assert_eq!(SaveFormat::from_path("png"), None);
    assert_eq!(SaveFormat::from_path("image."), None);
}

#[test]
fn full_paths_name_their_save_format() {
    assert_eq!(SaveFormat::from_path("/home/ann/drawings/cat.Psd"), Some(SaveFormat::Psd));
    assert_eq!(SaveFormat::from_path("C:\\art\\cat.jpeg"), Some(SaveFormat::Jpeg));
    assert_eq!(SaveFormat::from_path("/home/ann/.png"), None);
    assert_eq!(SaveFormat::from_path("/home/ann/cat.tif"), None);
}
