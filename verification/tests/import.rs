use std::io::Write;
use graphite_studio::drawing::document::BlendMode;
use graphite_studio::export::psd_layers::{paper_layer, write_info, LayerHead, LayerShape};
use graphite_studio::export::write_flat_rgb_psd8;
use graphite_studio::drawing::document::DirtyRect;
use graphite_studio::import::psd::layers::{blend_mode, read_planes, read_records, Bounds};
use graphite_studio::import::psd::stack::{complete_raster, open_layers, OpenedLayers, StackPlan};
use graphite_studio::import::psd::{decode_channels, layer_and_mask, mac_roman, read_header, zip_samples, Cursor};
use graphite_studio::import::{check_dimensions, opens_extension};
use graphite_studio::limits::canvas_pixels;

#[test]
fn standard_camera_dimensions_fit_and_invalid_sizes_still_fail() {
    assert!(check_dimensions(4032, 3024).is_ok());
    assert!(check_dimensions(4000, 4000).is_ok());
    assert!(check_dimensions(4001, 4000).is_ok());
    assert!(check_dimensions(12000, 12000).is_ok());
    assert!(check_dimensions(0, 3024).is_err());
    assert!(check_dimensions(usize::MAX, 2).is_err());
}

#[test]
fn layer_bounds_validate_arithmetic_without_a_pixel_quota() {
    assert_eq!(Bounds { top: 0, left: 0, bottom: 8192, right: 8192 }.size().unwrap(), (8192, 8192));
    assert!(Bounds { top: 1, left: 0, bottom: 0, right: 100 }.size().is_err());
    assert!(Bounds { top: i32::MIN, left: i32::MIN, bottom: i32::MAX, right: i32::MAX }.size().is_err());
}

#[test]
fn canvas_pixel_count_is_the_product() {
    assert_eq!(canvas_pixels(3, 4).unwrap(), 12);
    assert!(canvas_pixels(0, 4).is_err());
}

#[test]
fn open_extensions_ignore_ascii_case() {
    assert!(opens_extension("PSD"));
    assert!(opens_extension("graphite"));
    assert!(opens_extension("JpEg"));
    assert!(!opens_extension("gif"));
    assert!(!opens_extension(""));
}

#[test]
fn mac_roman_maps_the_upper_half() {
    assert_eq!(mac_roman(b"Ab\x80\xa5"), "Ab\u{c4}\u{2022}");
}

#[test]
fn flat_export_reads_back_as_the_same_header() {
    let mut bytes = Vec::new();
    write_flat_rgb_psd8(&mut bytes, &[1, 2, 3, 4, 5, 6], 2, 1, 300 * 65_536).unwrap();
    let h = read_header(&bytes).unwrap();
    assert_eq!((h.channels, h.width, h.height, h.depth, h.mode, h.base), (3, 2, 1, 8, 3, 3));
    assert!(h.palette.is_empty());
    assert_eq!(h.resources.len(), 28);
    let (alpha, info) = layer_and_mask(&[]).unwrap();
    assert!(!alpha);
    assert!(info.is_empty());
}

#[test]
fn header_refuses_other_signatures() {
    assert_eq!(read_header(b"8BPX\0\x01").err().unwrap(), "Not a PSD version 1 document.");
    assert!(read_header(b"8BP").is_err());
}

#[test]
fn raw_and_packbits_channels_decode_alike() {
    assert_eq!(decode_channels(&[0, 0, 7, 8, 9], 3, 1, 8, 1).unwrap(), vec![7, 8, 9]);
    assert_eq!(decode_channels(&[0, 1, 0, 2, 254, 5], 3, 1, 8, 1).unwrap(), vec![5, 5, 5]);
    assert!(decode_channels(&[0, 9], 3, 1, 8, 1).is_err());
}

#[test]
fn blend_keys_map_to_modes() {
    assert_eq!(blend_mode(b"norm"), Some(BlendMode::Normal));
    assert_eq!(blend_mode(b"sat "), Some(BlendMode::Saturation));
    assert_eq!(blend_mode(b"diss"), None);
}

fn pixel_layer(name: &str, w: usize, h: usize) -> LayerHead {
    LayerHead { opacity: 255, bounds: DirtyRect::new(0, 0, w, h), name: name.to_string(), visible: true, mode: BlendMode::Multiply, id: 1, shape: None }
}

#[test]
fn planes_decode_per_record_and_plan_the_stack() {
    let layers = vec![paper_layer(1, 1), pixel_layer("Ink", 1, 1)];
    let pixels = vec![vec![[255u16, 255, 255, 255]], vec![[1u16, 2, 3, 4]]];
    let mut info = Vec::new();
    write_info(&mut info, &layers, &pixels, 8).unwrap();
    let mut r = Cursor::new(&info);
    let records = read_records(&mut r).unwrap();
    let mut plan = StackPlan::new();
    for (i, rec) in records.iter().enumerate() {
        let planes = read_planes(&mut r, rec, 3, 8).unwrap();
        assert_eq!(planes.len(), 4);
        plan.add(i, rec, 3).unwrap();
        complete_raster(rec, &planes, 3).unwrap();
        if i == 1 {
            assert_eq!(planes[0], (0, vec![1]));
            assert_eq!(planes[3], (-1, vec![4]));
        }
    }
    let planned = plan.finish().unwrap();
    assert_eq!(planned.len(), 2);
    assert_eq!(planned[1].name, "Ink");
    assert_eq!(planned[1].blend, BlendMode::Multiply);
    assert!(!planned[1].vector);
}

#[test]
fn rgb_planes_are_required_for_pixels() {
    let layers = vec![pixel_layer("Gray", 1, 1)];
    let mut info = Vec::new();
    write_info(&mut info, &layers, &[vec![[1u16, 2, 3, 4]]], 8).unwrap();
    let mut r = Cursor::new(&info);
    let records = read_records(&mut r).unwrap();
    let e = complete_raster(&records[0], &[(0, vec![1])], 3).unwrap_err();
    assert_eq!(e, "Layer 'Gray' has no complete raster pixels; it must be rasterized in its source app before import.");
    assert!(complete_raster(&records[0], &[(0, vec![1])], 1).is_ok());
}

#[test]
fn unbalanced_groups_are_refused() {
    let plan = StackPlan::new();
    assert!(plan.finish().unwrap().is_empty());
}

#[test]
fn layer_information_opens_as_planned_layers() {
    let layers = vec![paper_layer(1, 1), pixel_layer("Ink", 1, 1)];
    let pixels = vec![vec![[255u16, 255, 255, 255]], vec![[1u16, 2, 3, 4]]];
    let mut info = Vec::new();
    write_info(&mut info, &layers, &pixels, 8).unwrap();
    match open_layers(&info, 3, 8).unwrap() {
        OpenedLayers::Planned(planned) => {
            assert_eq!(planned.len(), 2);
            assert_eq!(planned[1].name, "Ink");
            assert_eq!(planned[1].record, 1);
        }
        other => panic!("unexpected {:?}", other),
    }
    assert!(matches!(open_layers(&[], 3, 8).unwrap(), OpenedLayers::Merged));
    assert!(matches!(open_layers(&[0, 0, 7], 3, 8).unwrap(), OpenedLayers::Merged));
    assert_eq!(open_layers(&info, 3, 0).unwrap_err(), "Unsupported PSD sample depth.");
    let truncated = &info[..info.len() - 1];
    assert!(open_layers(truncated, 3, 8).is_err());
}

fn zlib(bytes: &[u8]) -> Vec<u8> {
    let mut e = flate2::write::ZlibEncoder::new(Vec::new(), flate2::Compression::default());
    e.write_all(bytes).unwrap();
    e.finish().unwrap()
}

#[test]
fn zip_and_predicted_zip_planes_decode() {
    let rows = [1u8, 1, 1, 2, 2, 2];
    let mut zip = vec![0, 2];
    zip.extend(zlib(&rows));
    assert_eq!(decode_channels(&zip, 3, 2, 8, 1).unwrap(), rows.to_vec());
    let mut predicted = vec![0, 3];
    predicted.extend(zlib(&rows));
    assert_eq!(decode_channels(&predicted, 3, 2, 8, 1).unwrap(), vec![1, 2, 3, 2, 4, 6]);
    let mut short = vec![0, 2];
    short.extend(zlib(&rows[..5]));
    assert_eq!(decode_channels(&short, 3, 2, 8, 1).unwrap_err(), "PSD ZIP image size does not match its header.");
    assert!(decode_channels(&[0, 2, 1, 2, 3], 3, 2, 8, 1).unwrap_err().starts_with("Invalid PSD ZIP image: "));
}

#[test]
fn inflated_zip_data_becomes_samples() {
    assert_eq!(zip_samples(Ok(vec![5, 1, 1]), 3, 3, 8, true).unwrap(), vec![5, 6, 7]);
    assert_eq!(zip_samples(Ok(vec![5, 1, 1]), 3, 3, 8, false).unwrap(), vec![5, 1, 1]);
    assert_eq!(zip_samples(Ok(vec![5, 1]), 3, 3, 8, true).unwrap_err(), "PSD ZIP image size does not match its header.");
    assert_eq!(zip_samples(Err("corrupt deflate stream".to_string()), 3, 3, 8, true).unwrap_err(), "Invalid PSD ZIP image: corrupt deflate stream");
    assert_eq!(zip_samples(Ok(vec![0xff]), 1, 8, 1, true).unwrap_err(), "PSD bitmap prediction is not supported.");
    assert_eq!(zip_samples(Ok(vec![0, 1, 0, 2]), 4, 2, 16, true).unwrap(), vec![0, 1, 0, 3]);
}

fn shape_info(mask: Vec<u8>) -> Vec<u8> {
    let layers = vec![
        paper_layer(1, 1),
        LayerHead { shape: Some(LayerShape { color: [10, 20, 30], mask }), bounds: DirtyRect::new(0, 0, 0, 0), ..pixel_layer("Star", 0, 0) },
    ];
    let pixels = vec![vec![[255u16, 255, 255, 255]], vec![]];
    let mut info = Vec::new();
    write_info(&mut info, &layers, &pixels, 8).unwrap();
    info
}

#[test]
fn vector_layers_open_only_when_their_shape_parses() {
    match open_layers(&shape_info(vec![0, 0, 0, 3, 0, 0, 0, 0]), 3, 8).unwrap() {
        OpenedLayers::Planned(planned) => {
            assert_eq!(planned.len(), 2);
            assert!(planned[1].vector);
            assert_eq!(planned[1].name, "Star");
        }
        other => panic!("unexpected {:?}", other),
    }
    assert_eq!(
        open_layers(&shape_info(vec![0, 0, 0, 2, 0, 0, 0, 0]), 3, 8).unwrap_err(),
        "Vector layer 'Star': Unsupported Photoshop vector mask version."
    );
    assert_eq!(
        open_layers(&shape_info(vec![0, 0, 0, 3, 0, 0, 0, 4]), 3, 8).unwrap_err(),
        "Vector layer 'Star': Disabled Photoshop vector masks are not supported yet."
    );
}

fn clipped_info(base_alpha: u16) -> Vec<u8> {
    let layers = vec![pixel_layer("Base", 1, 1), pixel_layer("Clip", 1, 1)];
    let pixels = vec![vec![[1u16, 2, 3, base_alpha]], vec![[5u16, 6, 7, 255]]];
    let mut info = Vec::new();
    write_info(&mut info, &layers, &pixels, 8).unwrap();
    let keys: Vec<usize> = info.windows(8).enumerate().filter(|(_, w)| *w == b"8BIMmul ").map(|(i, _)| i).collect();
    info[keys[1] + 9] = 1;
    info
}

#[test]
fn clipping_needs_an_opaque_base() {
    match open_layers(&clipped_info(255), 3, 8).unwrap() {
        OpenedLayers::Planned(planned) => {
            assert_eq!(planned.len(), 2);
            assert_eq!(planned[1].clip_base, Some(0));
            assert!(!planned[0].translucent);
        }
        other => panic!("unexpected {:?}", other),
    }
    assert_eq!(
        open_layers(&clipped_info(128), 3, 8).unwrap_err(),
        "Clipping layer 'Clip' has a translucent base. Its clipping group cannot yet be preserved without flattening."
    );
    match open_layers(&clipped_info(0), 3, 8).unwrap() {
        OpenedLayers::Planned(planned) => assert!(!planned[0].translucent),
        other => panic!("unexpected {:?}", other),
    }
}
