use graphite_studio::drawing::brush::import_abr;

fn pixels(rle: bool) -> Vec<u8> {
    let mut b = Vec::new();
    for v in [0i32, 0, 2, 3] {
        b.extend(v.to_be_bytes());
    }
    b.extend(8u16.to_be_bytes());
    b.push(rle as u8);
    if rle {
        b.extend(4u16.to_be_bytes());
        b.extend(2u16.to_be_bytes());
        b.extend([2, 0, 128, 255, 254, 90]);
    } else {
        b.extend([0, 128, 255, 90, 90, 90]);
    }
    b
}

fn fixture(version: u16, sub: u16, rle: bool) -> Vec<u8> {
    let mut bytes = Vec::new();
    bytes.extend(version.to_be_bytes());
    bytes.extend(sub.to_be_bytes());
    if version <= 2 {
        let mut record = vec![0; 6];
        if version == 2 {
            record.extend(4u32.to_be_bytes());
            for c in "Test".encode_utf16() {
                record.extend(c.to_be_bytes());
            }
        }
        record.extend([0; 9]);
        record.extend(pixels(rle));
        bytes.extend(2u16.to_be_bytes());
        bytes.extend((record.len() as u32).to_be_bytes());
        bytes.extend(record);
    } else {
        let mut record = vec![0; if sub == 1 { 47 } else { 301 }];
        record.extend(pixels(rle));
        let len = record.len();
        let mut block = Vec::new();
        block.extend((len as u32).to_be_bytes());
        block.extend(record);
        block.resize(block.len() + (4 - len % 4) % 4, 0);
        bytes.extend(b"8BIMsamp");
        bytes.extend((block.len() as u32).to_be_bytes());
        bytes.extend(block);
    }
    bytes
}

#[test]
fn reads_legacy_and_modern_raw_and_packbits_tips() {
    for (version, sub) in [(1, 1), (2, 1), (6, 1), (6, 2), (10, 1), (10, 2)] {
        for rle in [false, true] {
            let tips = import_abr(&fixture(version, sub, rle), "Pack").unwrap();
            assert_eq!(tips.len(), 1);
            assert_eq!(tips[0].mask, [0, 128, 255, 90, 90, 90]);
            assert_eq!((tips[0].width, tips[0].height), (3, 2));
        }
    }
}

#[test]
fn modern_sections_skip_padding_before_and_after_samples() {
    for length in [1usize, 2, 3, 4, 43] {
        let mut bytes = vec![0, 10, 0, 2];
        let append = |bytes: &mut Vec<u8>, tag: &[u8], body: &[u8]| {
            bytes.extend(b"8BIM");
            bytes.extend(tag);
            bytes.extend((body.len() as u32).to_be_bytes());
            bytes.extend(body);
            bytes.resize(bytes.len() + (4 - body.len() % 4) % 4, 0);
        };
        append(&mut bytes, b"desc", &vec![1; length]);
        bytes.extend(&fixture(10, 2, true)[4..]);
        append(&mut bytes, b"phry", &vec![2; length]);
        assert_eq!(import_abr(&bytes, "Collection").unwrap()[0].mask, [0, 128, 255, 90, 90, 90]);
        if length % 4 != 0 {
            bytes.pop();
            assert!(import_abr(&bytes, "Collection").is_err());
        }
    }
}

#[test]
fn rejects_truncation_unsupported_versions_and_overlong_rle() {
    let b = fixture(2, 1, true);
    for len in 0..b.len() {
        assert!(import_abr(&b[..len], "Bad").is_err(), "{len}");
    }
    let mut bad = b.clone();
    let n = bad.len();
    bad[n - 2] = 253;
    assert!(import_abr(&bad, "Bad").is_err());
    assert!(import_abr(&[0, 99, 0, 1], "Bad").is_err());
    let mut huge = fixture(2, 1, false);
    let bounds = 4 + 6 + 6 + 4 + 8 + 9;
    huge[bounds + 12..bounds + 16].copy_from_slice(&i32::MAX.to_be_bytes());
    assert!(import_abr(&huge, "Bad").is_err());
}

#[test]
fn unnamed_tips_are_numbered_after_the_library() {
    let tips = import_abr(&fixture(1, 1, false), "Soft").unwrap();
    assert_eq!(tips[0].name, "Soft \u{b7} 1");
    let named = import_abr(&fixture(2, 1, false), "Soft").unwrap();
    assert_eq!(named[0].name, "Test");
}

#[test]
fn unsupported_versions_name_the_version() {
    let e = import_abr(&[0, 99, 0, 1], "Bad").unwrap_err();
    assert!(e.contains("99"), "{e}");
}
