use graphite_studio::import::psd::descriptor::{
    descriptor_block, shape_paint, ColorModel, DescValue, MeasureUnit, StrokeStyle, StyleNumber,
};

fn key(k: &str) -> Vec<u8> {
    let mut out = 0u32.to_be_bytes().to_vec();
    out.extend_from_slice(k.as_bytes());
    out
}

fn long_key(k: &str) -> Vec<u8> {
    let mut out = (k.len() as u32).to_be_bytes().to_vec();
    out.extend_from_slice(k.as_bytes());
    out
}

fn entry(k: &str, value: Vec<u8>) -> Vec<u8> {
    let mut out = if k.len() == 4 { key(k) } else { long_key(k) };
    out.extend(value);
    out
}

fn body(entries: &[Vec<u8>]) -> Vec<u8> {
    let mut out = 0u32.to_be_bytes().to_vec();
    out.extend(key("null"));
    out.extend((entries.len() as u32).to_be_bytes());
    for e in entries {
        out.extend_from_slice(e);
    }
    out
}

fn object(entries: &[Vec<u8>]) -> Vec<u8> {
    let mut out = b"Objc".to_vec();
    out.extend(body(entries));
    out
}

fn block(entries: &[Vec<u8>]) -> Vec<u8> {
    let mut out = 16u32.to_be_bytes().to_vec();
    out.extend(body(entries));
    out
}

fn double(v: f64) -> Vec<u8> {
    let mut out = b"doub".to_vec();
    out.extend(v.to_bits().to_be_bytes());
    out
}

fn long(v: i32) -> Vec<u8> {
    let mut out = b"long".to_vec();
    out.extend(v.to_be_bytes());
    out
}

fn boolean(v: bool) -> Vec<u8> {
    vec![b'b', b'o', b'o', b'l', v as u8]
}

fn enumeration(kind: &str, v: &str) -> Vec<u8> {
    let mut out = b"enum".to_vec();
    out.extend(long_key(kind));
    out.extend(long_key(v));
    out
}

fn unit(code: &str, v: f64) -> Vec<u8> {
    let mut out = b"UntF".to_vec();
    out.extend_from_slice(code.as_bytes());
    out.extend(v.to_bits().to_be_bytes());
    out
}

fn list(items: &[Vec<u8>]) -> Vec<u8> {
    let mut out = b"VlLs".to_vec();
    out.extend((items.len() as u32).to_be_bytes());
    for i in items {
        out.extend_from_slice(i);
    }
    out
}

fn rgb_fill() -> Vec<u8> {
    block(&[entry("Clr ", object(&[entry("Rd  ", double(255.0)), entry("Grn ", double(128.0)), entry("Bl  ", long(0))]))])
}

#[test]
fn descriptors_read_typed_values_and_later_keys_win() {
    let d = descriptor_block(&block(&[entry("Opct", long(5)), entry("Opct", double(2.5)), entry("flag", boolean(true))])).unwrap();
    assert_eq!(d.len(), 3);
    assert_eq!(d[0].key, b"Opct".to_vec());
    assert!(matches!(d[0].value, DescValue::Long(5)));
    assert!(matches!(d[1].value, DescValue::Double(b) if b == 2.5f64.to_bits()));
    assert!(matches!(d[2].value, DescValue::Bool(true)));
    let paint = shape_paint(None, Some(&block(&[entry("strokeEnabled", boolean(true)), entry("strokeEnabled", boolean(false))])));
    assert_eq!(paint.unwrap_err(), "This Photoshop vector has no supported solid fill or stroke.");
}

#[test]
fn solid_fills_give_their_color_model() {
    let paint = shape_paint(Some(&rgb_fill()), None).unwrap();
    assert_eq!(
        paint.fill,
        Some(ColorModel::Rgb(StyleNumber::Double(255f64.to_bits()), StyleNumber::Double(128f64.to_bits()), StyleNumber::Long(0)))
    );
    assert_eq!(paint.stroke, None);
    let gray = block(&[entry("Clr ", object(&[entry("Gry ", unit("#Prc", 40.0))]))]);
    assert_eq!(shape_paint(Some(&gray), None).unwrap().fill, Some(ColorModel::Gray(StyleNumber::Double(40f64.to_bits()))));
}

#[test]
fn enabled_strokes_are_read_and_fills_can_be_disabled() {
    let style = block(&[
        entry("fillEnabled", boolean(false)),
        entry("strokeEnabled", boolean(true)),
        entry("strokeStyleLineWidth", unit("#Pnt", 3.0)),
        entry("strokeStyleLineCapType", enumeration("strokeStyleLineCapType", "strokeStyleRoundCap")),
        entry("strokeStyleLineJoinType", enumeration("strokeStyleLineJoinType", "strokeStyleBevelJoin")),
        entry("strokeStyleBlendMode", enumeration("BlnM", "normal")),
        entry("strokeStyleLineDashSet", list(&[])),
        entry("strokeStyleContent", object(&[entry("Clr ", object(&[entry("Cyn ", long(10)), entry("Blck", double(50.0))]))])),
    ]);
    let paint = shape_paint(Some(&rgb_fill()), Some(&style)).unwrap();
    assert_eq!(paint.fill, None);
    assert_eq!(
        paint.stroke,
        Some(StrokeStyle {
            color: ColorModel::Cmyk(StyleNumber::Long(10), StyleNumber::Default, StyleNumber::Default, StyleNumber::Double(50f64.to_bits())),
            opacity: StyleNumber::Default,
            width: StyleNumber::Measure(MeasureUnit::Points, 3f64.to_bits()),
            cap: 1,
            join: 2,
            miter: StyleNumber::Default,
        })
    );
}

#[test]
fn unsupported_styles_are_refused() {
    let stroke = |extra: Vec<u8>| {
        block(&[
            entry("strokeEnabled", boolean(true)),
            extra,
            entry("strokeStyleContent", object(&[entry("Clr ", object(&[entry("Rd  ", long(1))]))])),
        ])
    };
    let inside = stroke(entry("strokeStyleLineAlignment", enumeration("StrokeStyleLineAlignment", "strokeStyleAlignInside")));
    assert_eq!(shape_paint(None, Some(&inside)).unwrap_err(), "Inside/outside Photoshop strokes are not supported yet; the vector is not rasterized.");
    let dashed = stroke(entry("strokeStyleLineDashSet", list(&[double(2.0)])));
    assert_eq!(shape_paint(None, Some(&dashed)).unwrap_err(), "Dashed Photoshop vector strokes are not supported yet.");
    let blend = stroke(entry("strokeStyleBlendMode", enumeration("BlnM", "Mltp")));
    assert_eq!(shape_paint(None, Some(&blend)).unwrap_err(), "Photoshop stroke blend mode is not supported.");
    let unit_bad = stroke(entry("strokeStyleLineWidth", unit("#Xyz", 1.0)));
    assert_eq!(shape_paint(None, Some(&unit_bad)).unwrap_err(), "Unsupported Photoshop vector measurement unit.");
    let no_color = block(&[entry("strokeEnabled", boolean(true))]);
    assert_eq!(shape_paint(None, Some(&no_color)).unwrap_err(), "Photoshop stroke color is missing");
    let lab = block(&[entry("Clr ", object(&[entry("Lmnc", long(1))]))]);
    assert_eq!(shape_paint(Some(&lab), None).unwrap_err(), "Unsupported Photoshop vector color model.");
    let pattern = block(&[entry("Ptrn", long(1))]);
    assert_eq!(shape_paint(Some(&pattern), None).unwrap_err(), "Only solid-color Photoshop vector fills are currently supported");
    assert_eq!(shape_paint(None, None).unwrap_err(), "This Photoshop vector has no supported solid fill or stroke.");
}

#[test]
fn malformed_descriptors_are_refused() {
    let mut old = 15u32.to_be_bytes().to_vec();
    old.extend(body(&[]));
    assert_eq!(descriptor_block(&old).unwrap_err(), "Unsupported Photoshop descriptor version.");
    let odd = block(&[entry("Odd ", b"abcd".to_vec())]);
    assert_eq!(descriptor_block(&odd).unwrap_err(), "Unsupported Photoshop shape descriptor 'abcd'.");
    let mut truncated = rgb_fill();
    truncated.truncate(truncated.len() - 3);
    assert_eq!(descriptor_block(&truncated).unwrap_err(), "Truncated PSD data");
    let mut nested = object(&[]);
    for _ in 0..30 {
        nested = object(&[entry("Nest", nested)]);
    }
    assert_eq!(descriptor_block(&block(&[entry("Nest", nested)])).unwrap_err(), "PSD descriptor is too complex.");
    let mut big = 16u32.to_be_bytes().to_vec();
    big.extend(0u32.to_be_bytes());
    big.extend(key("null"));
    big.extend(10001u32.to_be_bytes());
    assert_eq!(descriptor_block(&big).unwrap_err(), "PSD descriptor is too large.");
    let mut text = 16u32.to_be_bytes().to_vec();
    text.extend(2_000_000u32.to_be_bytes());
    assert_eq!(descriptor_block(&text).unwrap_err(), "PSD descriptor text is too large.");
}

#[test]
fn exported_solid_colors_read_back_as_their_channels() {
    let written = graphite_studio::export::psd_vectors::solid_color([12, 200, 255]);
    let paint = shape_paint(Some(&written), None).unwrap();
    assert_eq!(
        paint.fill,
        Some(ColorModel::Rgb(
            StyleNumber::Double(12f64.to_bits()),
            StyleNumber::Double(200f64.to_bits()),
            StyleNumber::Double(255f64.to_bits())
        ))
    );
}
