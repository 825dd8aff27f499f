use graphite_studio::drawing::brush::BrushTip;
use graphite_studio::project::{
    brush_valid, brushes_valid, check_embedded, decoded_within_limit, project_file, project_file_text, project_stream, project_text, check_project_magic, embedded_payload, embedded_project,
    fingerprint_update, layer_ids_ok, layer_structure_ok, psd_fingerprint, resource_location,
    seal,
};
use std::sync::Arc;
use std::io::Read;
use graphite_studio::gallery::{gallery_file, gallery_text, pencil_text};

fn block(id: u16, name: &[u8], data: &[u8]) -> Vec<u8> {
    let mut out = b"8BIM".to_vec();
    out.extend(id.to_be_bytes());
    out.push(name.len() as u8);
    out.extend_from_slice(name);
    if (name.len() + 1) % 2 != 0 {
        out.push(0);
    }
    out.extend((data.len() as u32).to_be_bytes());
    out.extend_from_slice(data);
    if data.len() % 2 != 0 {
        out.push(0);
    }
    out
}

fn psd_with(resources: &[u8]) -> Vec<u8> {
    let mut out = b"8BPS\x00\x01".to_vec();
    out.resize(26, 0);
    out.extend(0u32.to_be_bytes());
    out.extend((resources.len() as u32).to_be_bytes());
    out.extend_from_slice(resources);
    out.extend([0, 0, 0, 0, 9, 9, 9]);
    out
}

#[test]
fn fingerprint_is_fnv1a_and_skips_the_given_range() {
    assert_eq!(psd_fingerprint(&[], (0, 0)), 0xcbf29ce484222325);
    assert_eq!(psd_fingerprint(b"a", (0, 0)), 0xaf63dc4c8601ec8c);
    assert_eq!(psd_fingerprint(b"ab", (1, 1)), 0xaf63dc4c8601ec8c);
    assert_eq!(psd_fingerprint(b"ab", (1, 1)), psd_fingerprint(b"az", (1, 1)));
    assert_ne!(psd_fingerprint(b"ab", (0, 0)), psd_fingerprint(b"az", (0, 0)));
    let whole = psd_fingerprint(b"hello world", (3, 2));
    let (h, pos) = fingerprint_update(0xcbf29ce484222325, 0, b"hello", (3, 2));
    let (h, pos) = fingerprint_update(h, pos, b" world", (3, 2));
    assert_eq!(pos, 11);
    assert_eq!(h, whole);
}

#[test]
fn the_embedded_project_is_found_sealed_and_reopened() {
    let payload = embedded_payload(b"compressed project").unwrap();
    assert_eq!(&payload[..8], b"GSPROJ01");
    assert_eq!(&payload[8..16], &[0; 8]);
    assert_eq!(&payload[16..25], b"GRAPHITE\x01");
    let mut resources = block(1005, b"", &[0; 16]);
    resources.extend(block(4000, b"GraphiteStudio.Project.v1", &payload));
    let mut file = psd_with(&resources);
    let location = resource_location(&file).unwrap();
    assert_eq!(location.1 as usize, payload.len());
    assert_eq!(&file[location.0 as usize..location.0 as usize + 8], b"GSPROJ01");
    assert_eq!(check_embedded(&file, location).unwrap_err().contains("changed outside"), true);
    assert_eq!(seal(&mut file).unwrap(), location);
    assert!(check_embedded(&file, location).is_ok());
    assert_eq!(resource_location(&file).unwrap(), location);
    let last = file.len() - 1;
    file[last] ^= 1;
    assert!(check_embedded(&file, location).unwrap_err().contains("changed outside"));
}

#[test]
fn psd_files_without_a_project_are_explained() {
    let file = psd_with(&block(1005, b"", &[0; 16]));
    assert!(resource_location(&file).unwrap_err().starts_with("This PSD has no Graphite material state"));
    assert_eq!(resource_location(b"8BPS").unwrap_err(), "failed to fill whole buffer");
    let mut png = psd_with(&[]);
    png[0] = b'P';
    assert_eq!(resource_location(&png).unwrap_err(), "Not a supported PSD file");
    let mut truncated = psd_with(&block(1005, b"", &[0; 16]));
    truncated.truncate(40);
    assert_eq!(resource_location(&truncated).unwrap_err(), "Truncated PSD resources");
    let mut bad = block(1005, b"", &[0; 16]);
    bad[0] = b'X';
    assert_eq!(resource_location(&psd_with(&bad)).unwrap_err(), "Invalid PSD resource signature");
    let mut long = block(1005, b"", &[0; 16]);
    long[9] = 200;
    assert_eq!(resource_location(&psd_with(&long)).unwrap_err(), "Truncated PSD resource");
}

#[test]
fn embedded_checks_refuse_bad_sizes_and_tags() {
    let payload = embedded_payload(b"x").unwrap();
    let file = psd_with(&block(4000, b"GraphiteStudio.Project.v1", &payload));
    let location = resource_location(&file).unwrap();
    assert_eq!(check_embedded(&file, (location.0, 24)).unwrap_err(), "Unsupported embedded project size");
    let mut other = file.clone();
    other[location.0 as usize] = b'X';
    assert_eq!(check_embedded(&other, location).unwrap_err(), "Unsupported Graphite PSD project version");
}

#[test]
fn native_projects_start_with_their_tag() {
    assert!(check_project_magic(b"GRAPHITE\x01rest").is_ok());
    assert_eq!(check_project_magic(b"GRAPH").unwrap_err(), "Not a complete Graphite project");
    assert_eq!(check_project_magic(b"GRAPHITE\x02").unwrap_err(), "Not a supported Graphite project version");
}

#[test]
fn saved_layer_structure_is_checked() {
    assert!(layer_structure_ok(&[1, 2, 3], 2, 4, 0));
    assert!(!layer_structure_ok(&[1, 2, 3], 3, 4, 0));
    assert!(!layer_structure_ok(&[1, 5, 3], 0, 5, 0));
    assert!(!layer_structure_ok(&[], 0, 1, 0));
    assert!(!layer_structure_ok(&[1], 0, 2, u64::MAX));
    assert!(layer_ids_ok(&[1, 2, 3]));
    assert!(!layer_ids_ok(&[1, 2, 1]));
    assert!(!layer_ids_ok(&[0, 2]));
}

fn tip(width: usize, height: usize, mask: usize) -> BrushTip {
    BrushTip { name: "tip".to_string(), width, height, mask: vec![255; mask] }
}

#[test]
fn saved_brush_tips_are_checked() {
    assert!(brush_valid(&tip(3, 2, 6)));
    assert!(brush_valid(&tip(8192, 1, 8192)));
    assert!(!brush_valid(&tip(0, 2, 0)));
    assert!(!brush_valid(&tip(3, 0, 0)));
    assert!(!brush_valid(&tip(8193, 1, 8193)));
    assert!(!brush_valid(&tip(1, 8193, 8193)));
    assert!(!brush_valid(&tip(3, 2, 5)));
    assert!(!brush_valid(&tip(8192, 4096, 8192 * 4096)));
    assert!(brush_valid(&tip(4096, 4096, 4096 * 4096)));
}

#[test]
fn saved_brush_sets_are_checked() {
    assert!(brushes_valid(&[]));
    let small = Arc::new(tip(2, 2, 4));
    assert!(brushes_valid(&vec![small.clone(); 512]));
    assert!(!brushes_valid(&vec![small.clone(); 513]));
    assert!(!brushes_valid(&[small.clone(), Arc::new(tip(2, 2, 3))]));
    let big = Arc::new(tip(4096, 4096, 4096 * 4096));
    assert!(brushes_valid(&vec![big.clone(); 4]));
    assert!(!brushes_valid(&vec![big.clone(); 4].into_iter().chain([small]).collect::<Vec<_>>()));
}

#[test]
fn embedded_projects_open_only_when_sealed() {
    let payload = embedded_payload(b"compressed project").unwrap();
    let mut file = psd_with(&block(4000, b"GraphiteStudio.Project.v1", &payload));
    assert!(embedded_project(&file).unwrap_err().contains("changed outside"));
    seal(&mut file).unwrap();
    let project = embedded_project(&file).unwrap();
    assert_eq!(&project[..9], b"GRAPHITE\x01");
    assert_eq!(&project[9..], b"compressed project");
    assert!(embedded_project(&psd_with(&[])).unwrap_err().starts_with("This PSD has no Graphite material state"));
}

#[test]
fn native_project_files_are_a_tag_and_a_gzip_stream() {
    let json = br#"{"zoom":1.0,"pan":[0.0,0.0]}"#;
    let file = project_file(json).unwrap();
    assert_eq!(&file[..9], b"GRAPHITE\x01");
    let mut plain = Vec::new();
    flate2::read::GzDecoder::new(&file[9..]).read_to_end(&mut plain).unwrap();
    assert_eq!(plain, json.to_vec());
    assert_eq!(project_text(&file).unwrap(), json.to_vec());
    assert_eq!(project_file_text(&file).unwrap(), json.to_vec());
    assert_eq!(project_stream(json).unwrap(), file[9..].to_vec());
    assert!(decoded_within_limit(&plain));
}

#[test]
fn broken_project_files_are_explained() {
    assert_eq!(project_text(b"GRAPH").unwrap_err(), "Not a complete Graphite project");
    assert_eq!(project_text(b"GRAPHITE\x02rest").unwrap_err(), "Not a supported Graphite project version");
    assert!(project_text(b"GRAPHITE\x01not gzip at all").unwrap_err().starts_with("Project data is incomplete or invalid: "));
    let file = project_file(b"{}").unwrap();
    assert!(project_text(&file[..file.len() - 4]).unwrap_err().starts_with("Project data is incomplete or invalid: "));
}

#[test]
fn gallery_files_are_gzip_streams_with_limits() {
    let json = br#"{"pencils":[]}"#;
    let file = gallery_file(json);
    assert_ne!(file, json.to_vec());
    assert_eq!(gallery_text(&file).unwrap(), json.to_vec());
    assert_eq!(pencil_text(&file).unwrap(), json.to_vec());
    let huge = vec![0u8; 128 * 1024 * 1024 + 1];
    assert_eq!(gallery_text(&huge).unwrap_err(), "Gallery is too large.");
    assert_eq!(pencil_text(&huge).unwrap_err(), "Pencil file exceeds 128 MB.");
    assert!(gallery_text(b"broken").is_err());
}
