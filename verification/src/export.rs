//! Saving: file-format selection and the byte encoders of the PSD writer.
//! File handles stay with the caller; these functions produce the bytes.
pub mod psd_layers;
pub mod psd_vectors;

use vstd::prelude::*;
use crate::drawing::brush::{be16, be32, signature_8bim};

verus! {

/// The formats a drawing can be saved in.
#[derive(Debug, Clone, Copy, PartialEq, Eq, Structural)]
pub enum SaveFormat {
    Png,
    Bmp,
    Jpeg,
    Psd,
}

/// ASCII lowercase of one character; other characters are unchanged.
pub open spec fn ascii_lower(c: char) -> char {
    if 'A' <= c <= 'Z' { ((c as u32) + 32) as char } else { c }
}

/// ASCII lowercase of a text.
pub open spec fn ascii_lowercase(s: Seq<char>) -> Seq<char> {
    s.map_values(|c: char| ascii_lower(c))
}

/// The save format named by a file extension, compared without ASCII case.
pub open spec fn format_for_extension(ext: Seq<char>) -> Option<SaveFormat> {
    let e = ascii_lowercase(ext);
    if e == "png"@ {
        Some(SaveFormat::Png)
    } else if e == "bmp"@ {
        Some(SaveFormat::Bmp)
    } else if e == "jpg"@ || e == "jpeg"@ {
        Some(SaveFormat::Jpeg)
    } else if e == "psd"@ {
        Some(SaveFormat::Psd)
    } else {
        None
    }
}

/// The ASCII-lowercased characters of `s`.
pub fn lowercase_chars(s: &str) -> (out: Vec<char>)
    ensures
        out@ == ascii_lowercase(s@),
{
    let chars = crate::text::str_chars(s);
    let mut out: Vec<char> = Vec::new();
    let mut i: usize = 0;
    while i < chars.len()
        invariant
            i <= chars@.len(),
            chars@ == s@,
            out@ == ascii_lowercase(chars@.subrange(0, i as int)),
        decreases chars@.len() - i,
    {
        let c = chars[i];
        let l = if 'A' <= c && c <= 'Z' { ((c as u32) + 32) as u8 as char } else { c };
        proof {
            if 'A' <= c <= 'Z' {
                assert(l == ascii_lower(c));
            }
        }
        out.push(l);
        assert(ascii_lowercase(chars@.subrange(0, i + 1)) =~= ascii_lowercase(chars@.subrange(0, i as int)).push(ascii_lower(c)));
        i = i + 1;
    }
    assert(chars@.subrange(0, chars@.len() as int) =~= chars@);
    out
}

/// Whether `chars` spells exactly the literal `lit`.
pub fn chars_are(chars: &Vec<char>, lit: &str) -> (b: bool)
    ensures
        b == (chars@ == lit@),
{
    let expected = crate::text::str_chars(lit);
    if chars.len() != expected.len() {
        return false;
    }
    let mut i: usize = 0;
    while i < chars.len()
        invariant
            i <= chars@.len(),
            chars@.len() == expected@.len(),
            expected@ == lit@,
            forall|k: int| 0 <= k < i ==> chars@[k] == expected@[k],
        decreases chars@.len() - i,
    {
        if chars[i] != expected[i] {
            return false;
        }
        i = i + 1;
    }
    assert(chars@ =~= expected@);
    true
}

impl SaveFormat {
    /// The save format named by a file extension, compared without ASCII case.
    pub fn from_extension(extension: &str) -> (f: Option<Self>)
        ensures
            f == format_for_extension(extension@),
    {
        let e = lowercase_chars(extension);
        if chars_are(&e, "png") {
            Some(SaveFormat::Png)
        } else if chars_are(&e, "bmp") {
            Some(SaveFormat::Bmp)
        } else if chars_are(&e, "jpg") || chars_are(&e, "jpeg") {
            Some(SaveFormat::Jpeg)
        } else if chars_are(&e, "psd") {
            Some(SaveFormat::Psd)
        } else {
            None
        }
    }

    /// The save format named by the extension of the path `path`, found by
    /// `Path::extension`: where every platform finds the same extension, the
    /// format it names.
    pub fn from_path(path: &str) -> (f: Option<Self>)
        ensures
            crate::paths::extension_known(path@) ==> f == match crate::paths::known_extension(path@) {
                Some(e) => format_for_extension(e),
                None => None,
            },
    {
        match crate::paths::path_extension(path) {
            Some(extension) => Self::from_extension(extension.as_str()),
            None => None,
        }
    }

    pub fn label(self) -> (s: &'static str)
        ensures
            s@ == match self {
                SaveFormat::Png => "PNG"@,
                SaveFormat::Bmp => "BMP"@,
                SaveFormat::Jpeg => "JPEG"@,
                SaveFormat::Psd => "PSD"@,
            },
    {
        match self {
            SaveFormat::Png => "PNG",
            SaveFormat::Bmp => "BMP",
            SaveFormat::Jpeg => "JPEG",
            SaveFormat::Psd => "PSD",
        }
    }
}

/// Bits per channel of a PSD export.
#[derive(Debug, Clone, Copy, PartialEq, Eq, Structural)]
pub enum PsdBitDepth {
    Eight,
    Sixteen,
}

impl PsdBitDepth {
    pub open spec fn spec_bits(self) -> u16 {
        match self {
            PsdBitDepth::Eight => 8,
            PsdBitDepth::Sixteen => 16,
        }
    }

    pub fn bits(self) -> (b: u16)
        ensures
            b == self.spec_bits(),
    {
        match self {
            PsdBitDepth::Eight => 8,
            PsdBitDepth::Sixteen => 16,
        }
    }

    pub fn label(self) -> (s: &'static str)
        ensures
            s@ == match self {
                PsdBitDepth::Eight => "PSD 8-bit"@,
                PsdBitDepth::Sixteen => "PSD 16-bit"@,
            },
    {
        match self {
            PsdBitDepth::Eight => "PSD 8-bit",
            PsdBitDepth::Sixteen => "PSD 16-bit",
        }
    }
}

impl Default for PsdBitDepth {
    /// Sixteen bits per channel keeps graphite gradients without banding.
    fn default() -> (d: Self)
        ensures
            d == PsdBitDepth::Sixteen,
    {
        PsdBitDepth::Sixteen
    }
}

/// Options chosen when saving.
#[derive(Debug, Clone, Copy)]
pub struct SaveOptions {
    pub psd_bit_depth: PsdBitDepth,
}

impl Default for SaveOptions {
    fn default() -> (o: Self)
        ensures
            o.psd_bit_depth == PsdBitDepth::Sixteen,
    {
        SaveOptions { psd_bit_depth: PsdBitDepth::Sixteen }
    }
}


// ---------------------------------------------------------------------------
// Byte encoding.

/// Big-endian bytes of a 16-bit value.
pub open spec fn be16_bytes(v: int) -> Seq<u8> {
    seq![(v / 256) as u8, (v % 256) as u8]
}

/// Big-endian bytes of a 32-bit value.
pub open spec fn be32_bytes(v: int) -> Seq<u8> {
    seq![(v / 0x100_0000) as u8, ((v / 0x1_0000) % 256) as u8, ((v / 256) % 256) as u8, (v % 256) as u8]
}

/// Append the big-endian bytes of `value`.
pub fn be_u16(out: &mut Vec<u8>, value: u16)
    ensures
        final(out)@ == old(out)@ + be16_bytes(value as int),
{
    out.push((value / 256) as u8);
    out.push((value % 256) as u8);
    assert(out@ =~= old(out)@ + be16_bytes(value as int));
}

/// Append the big-endian bytes of `value`.
pub fn be_u32(out: &mut Vec<u8>, value: u32)
    ensures
        final(out)@ == old(out)@ + be32_bytes(value as int),
{
    out.push((value / 0x100_0000) as u8);
    out.push(((value / 0x1_0000) % 256) as u8);
    out.push(((value / 256) % 256) as u8);
    out.push((value % 256) as u8);
    assert(out@ =~= old(out)@ + be32_bytes(value as int));
}

/// Reading back what [`be16_bytes`] and [`be32_bytes`] write gives the value.
pub proof fn lemma_be_round_trip(v16: u16, v32: u32)
    ensures
        be16(be16_bytes(v16 as int), 0) == v16,
        be32(be32_bytes(v32 as int), 0) == v32,
{
}

/// One color channel composited over white with `alpha`, rounded.
pub open spec fn over_white(channel: int, alpha: int) -> int {
    (channel * alpha + 255 * (255 - alpha) + 127) / 255
}

/// RGB of RGBA pixels composited over white; a trailing partial pixel is dropped.
pub open spec fn rgb_over_white(rgba: Seq<u8>) -> Seq<u8> {
    Seq::new(((rgba.len() / 4) * 3) as nat, |i: int| over_white(rgba[(i / 3) * 4 + i % 3] as int, rgba[(i / 3) * 4 + 3] as int) as u8)
}

/// Composite RGBA pixels over white paper, for formats without alpha.
pub fn rgba_to_rgb(rgba: &[u8]) -> (rgb: Vec<u8>)
    ensures
        rgb@ == rgb_over_white(rgba@),
{
    let len = rgba.len();
    let n = len / 4;
    let mut rgb: Vec<u8> = Vec::new();
    let mut p: usize = 0;
    while p < n
        invariant
            p <= n,
            len == rgba@.len(),
            n == rgba@.len() / 4,
            rgb@.len() == 3 * p,
            forall|i: int| 0 <= i < 3 * p ==> #[trigger] rgb@[i] == rgb_over_white(rgba@)[i],
        decreases n - p,
    {
        assert(4 * p + 4 <= rgba@.len()) by (nonlinear_arith)
            requires p < n, n == rgba@.len() / 4;
        let alpha = rgba[4 * p + 3] as u16;
        let inv_alpha = 255 - alpha;
        let mut c: usize = 0;
        while c < 3
            invariant
                c <= 3,
                p < n,
                len == rgba@.len(),
                n == rgba@.len() / 4,
                4 * p + 4 <= rgba@.len(),
                alpha == rgba@[4 * p + 3],
                inv_alpha == 255 - alpha,
                rgb@.len() == 3 * p + c,
                forall|i: int| 0 <= i < 3 * p + c ==> #[trigger] rgb@[i] == rgb_over_white(rgba@)[i],
            decreases 3 - c,
        {
            let channel = rgba[4 * p + c] as u16;
            assert(channel * alpha + 255 * inv_alpha <= 255 * 255) by (nonlinear_arith)
                requires channel <= 255, alpha <= 255, inv_alpha == 255 - alpha;
            let composited = (channel * alpha + 255 * inv_alpha + 127) / 255;
            proof {
                let i = 3 * p + c;
                vstd::arithmetic::div_mod::lemma_fundamental_div_mod_converse(i, 3, p as int, c as int);
                assert(i < (rgba@.len() / 4) * 3);
                assert(composited <= 255) by (nonlinear_arith)
                    requires composited == (channel * alpha + 255 * (255 - alpha) + 127) / 255, channel <= 255, alpha <= 255;
            }
            rgb.push(composited as u8);
            c = c + 1;
        }
        p = p + 1;
    }
    assert(rgb@ =~= rgb_over_white(rgba@));
    rgb
}

// ---------------------------------------------------------------------------
// PSD header.

/// `8BPS`.
pub open spec fn psd_signature() -> Seq<u8> {
    seq![0x38u8, 0x42u8, 0x50u8, 0x53u8]
}

/// The 28-byte resolution resource (id 1005) for `fixed_dpi` pixels per inch
/// in 16.16 fixed point.
pub open spec fn resolution_resource(fixed_dpi: int) -> Seq<u8> {
    signature_8bim() + be16_bytes(1005) + seq![0u8, 0u8] + be32_bytes(16)
        + be32_bytes(fixed_dpi) + be16_bytes(1) + be16_bytes(1)
        + be32_bytes(fixed_dpi) + be16_bytes(1) + be16_bytes(1)
}

/// The header of a PSD version 1 RGB file: signature, dimensions, depth, an
/// empty color-mode section, the image resources (resolution first) and an
/// empty layer-and-mask section.
pub open spec fn psd_header_bytes(width: int, height: int, fixed_dpi: int, depth: int, resources: Seq<u8>) -> Seq<u8> {
    file_header_bytes(width, height, depth) + be32_bytes(0) + be32_bytes(28 + resources.len() as int) + resolution_resource(fixed_dpi)
        + resources + be32_bytes(0)
}

/// The refusal of a header for these parameters, if any.
pub open spec fn psd_header_error(width: int, height: int, depth: int, resources_len: int) -> Option<Seq<char>> {
    if width == 0 || height == 0 || width > 30_000 || height > 30_000 {
        Some("PSD version 1 requires dimensions from 1 to 30000 pixels"@)
    } else if depth != 8 && depth != 16 {
        Some("Graphite Studio PSD export supports 8 or 16 bits/channel"@)
    } else if resources_len > u32::MAX {
        Some("PSD resources exceed the format's 4 GB field"@)
    } else if 28 + resources_len > u32::MAX {
        Some("PSD resources exceed 4 GB"@)
    } else {
        None
    }
}

/// The fixed file-header fields of a PSD version 1 RGB file.
pub open spec fn file_header_bytes(width: int, height: int, depth: int) -> Seq<u8> {
    psd_signature() + be16_bytes(1) + seq![0u8, 0u8, 0u8, 0u8, 0u8, 0u8] + be16_bytes(3)
        + be32_bytes(height) + be32_bytes(width) + be16_bytes(depth) + be16_bytes(3)
}

fn push_file_header(out: &mut Vec<u8>, width: u32, height: u32, depth: u16)
    ensures
        final(out)@ == old(out)@ + file_header_bytes(width as int, height as int, depth as int),
{
    let ghost start = out@;
    out.push(0x38); out.push(0x42); out.push(0x50); out.push(0x53);
    be_u16(out, 1);
    out.push(0); out.push(0); out.push(0); out.push(0); out.push(0); out.push(0);
    be_u16(out, 3);
    be_u32(out, height);
    be_u32(out, width);
    be_u16(out, depth);
    be_u16(out, 3);
    assert(out@ =~= start + file_header_bytes(width as int, height as int, depth as int));
}

fn push_resolution(out: &mut Vec<u8>, fixed_dpi: u32)
    ensures
        final(out)@ == old(out)@ + resolution_resource(fixed_dpi as int),
{
    let ghost start = out@;
    out.push(0x38); out.push(0x42); out.push(0x49); out.push(0x4D);
    be_u16(out, 1005);
    out.push(0); out.push(0);
    be_u32(out, 16);
    be_u32(out, fixed_dpi);
    be_u16(out, 1);
    be_u16(out, 1);
    be_u32(out, fixed_dpi);
    be_u16(out, 1);
    be_u16(out, 1);
    assert(out@ =~= start + resolution_resource(fixed_dpi as int));
}

/// Append the header of a PSD version 1 RGB file whose resolution is
/// `fixed_dpi` (16.16 fixed point) and whose extra image resources are
/// `resources`.
pub fn write_psd_header_with_resources(out: &mut Vec<u8>, width: u32, height: u32, fixed_dpi: u32, depth: u16, resources: &[u8]) -> (res: Result<(), String>)
    ensures
        match psd_header_error(width as int, height as int, depth as int, resources@.len() as int) {
            None => res is Ok && final(out)@ == old(out)@ + psd_header_bytes(width as int, height as int, fixed_dpi as int, depth as int, resources@),
            Some(m) => res matches Err(e) && e@ == m && final(out)@ == old(out)@,
        },
{
    if width == 0 || height == 0 || width > 30_000 || height > 30_000 {
        return Err(String::from_str("PSD version 1 requires dimensions from 1 to 30000 pixels"));
    }
    if depth != 8 && depth != 16 {
        return Err(String::from_str("Graphite Studio PSD export supports 8 or 16 bits/channel"));
    }
    let len = resources.len();
    if len > 0xFFFF_FFFF {
        return Err(String::from_str("PSD resources exceed the format's 4 GB field"));
    }
    if len > 0xFFFF_FFFF - 28 {
        return Err(String::from_str("PSD resources exceed 4 GB"));
    }
    let ghost start = out@;
    push_file_header(out, width, height, depth);
    be_u32(out, 0);
    be_u32(out, 28 + len as u32);
    push_resolution(out, fixed_dpi);
    out.extend_from_slice(resources);
    be_u32(out, 0);
    assert(out@ =~= start + psd_header_bytes(width as int, height as int, fixed_dpi as int, depth as int, resources@));
    Ok(())
}

/// Channel `ch` of the interleaved RGB samples `rgb`, one per pixel.
pub open spec fn rgb_plane<T>(rgb: Seq<T>, ch: int) -> Seq<T> {
    Seq::new(rgb.len() / 3, |i: int| rgb[3 * i + ch])
}

/// Bytes of 16-bit samples, big-endian.
pub open spec fn be16_samples(v: Seq<u16>) -> Seq<u8>
    decreases v.len(),
{
    if v.len() == 0 { seq![] } else { be16_samples(v.drop_last()) + be16_bytes(v.last() as int) }
}

/// The refusal of a flat file for `len` samples of a `width` × `height`
/// image, if any.
pub open spec fn flat_psd_error(len: int, width: u32, height: u32, depth: int, count_message: Seq<char>) -> Option<Seq<char>> {
    if len != width * height * 3 {
        Some(count_message)
    } else {
        psd_header_error(width as int, height as int, depth, 0)
    }
}

/// Append the planes of interleaved 8-bit RGB samples.
fn push_rgb_planes8(out: &mut Vec<u8>, rgb: &[u8])
    ensures
        final(out)@ == old(out)@ + rgb_plane(rgb@, 0) + rgb_plane(rgb@, 1) + rgb_plane(rgb@, 2),
{
    let len = rgb.len();
    let n = len / 3;
    let mut ch: usize = 0;
    while ch < 3
        invariant
            ch <= 3,
            len == rgb@.len(),
            n == rgb@.len() / 3,
            out@ == old(out)@ + (if ch == 0 { seq![] } else if ch == 1 { rgb_plane(rgb@, 0) }
                else if ch == 2 { rgb_plane(rgb@, 0) + rgb_plane(rgb@, 1) }
                else { rgb_plane(rgb@, 0) + rgb_plane(rgb@, 1) + rgb_plane(rgb@, 2) }),
        decreases 3 - ch,
    {
        let ghost before = out@;
        let mut i: usize = 0;
        while i < n
            invariant
                i <= n,
                ch < 3,
                len == rgb@.len(),
                n == rgb@.len() / 3,
                out@ == before + rgb_plane(rgb@, ch as int).take(i as int),
            decreases n - i,
        {
            assert(3 * i + ch < len);
            out.push(rgb[3 * i + ch]);
            assert(rgb_plane(rgb@, ch as int).take(i + 1) =~= rgb_plane(rgb@, ch as int).take(i as int).push(rgb@[3 * i + ch]));
            i += 1;
        }
        assert(rgb_plane(rgb@, ch as int).take(n as int) =~= rgb_plane(rgb@, ch as int));
        ch += 1;
        assert(out@ =~= old(out)@ + (if ch == 0 { seq![] } else if ch == 1 { rgb_plane(rgb@, 0) }
                else if ch == 2 { rgb_plane(rgb@, 0) + rgb_plane(rgb@, 1) }
                else { rgb_plane(rgb@, 0) + rgb_plane(rgb@, 1) + rgb_plane(rgb@, 2) }));
    }
}

/// Append the planes of interleaved 16-bit RGB samples.
fn push_rgb_planes16(out: &mut Vec<u8>, rgb: &[u16])
    ensures
        final(out)@ == old(out)@ + be16_samples(rgb_plane(rgb@, 0)) + be16_samples(rgb_plane(rgb@, 1))
            + be16_samples(rgb_plane(rgb@, 2)),
{
    let len = rgb.len();
    let n = len / 3;
    let mut ch: usize = 0;
    while ch < 3
        invariant
            ch <= 3,
            len == rgb@.len(),
            n == rgb@.len() / 3,
            out@ == old(out)@ + (if ch == 0 { seq![] } else if ch == 1 { be16_samples(rgb_plane(rgb@, 0)) }
                else if ch == 2 { be16_samples(rgb_plane(rgb@, 0)) + be16_samples(rgb_plane(rgb@, 1)) }
                else { be16_samples(rgb_plane(rgb@, 0)) + be16_samples(rgb_plane(rgb@, 1)) + be16_samples(rgb_plane(rgb@, 2)) }),
        decreases 3 - ch,
    {
        let ghost before = out@;
        let mut i: usize = 0;
        while i < n
            invariant
                i <= n,
                ch < 3,
                len == rgb@.len(),
                n == rgb@.len() / 3,
                out@ == before + be16_samples(rgb_plane(rgb@, ch as int).take(i as int)),
            decreases n - i,
        {
            assert(3 * i + ch < len);
            be_u16(out, rgb[3 * i + ch]);
            assert(rgb_plane(rgb@, ch as int).take(i + 1).drop_last() =~= rgb_plane(rgb@, ch as int).take(i as int));
            i += 1;
        }
        assert(rgb_plane(rgb@, ch as int).take(n as int) =~= rgb_plane(rgb@, ch as int));
        ch += 1;
        assert(out@ =~= old(out)@ + (if ch == 0 { seq![] } else if ch == 1 { be16_samples(rgb_plane(rgb@, 0)) }
                else if ch == 2 { be16_samples(rgb_plane(rgb@, 0)) + be16_samples(rgb_plane(rgb@, 1)) }
                else { be16_samples(rgb_plane(rgb@, 0)) + be16_samples(rgb_plane(rgb@, 1)) + be16_samples(rgb_plane(rgb@, 2)) }));
    }
}

/// Append a flat PSD version 1 file, 8-bit RGB: the header with the
/// resolution resource, then the interleaved samples `rgb` as raw planes.
pub fn write_flat_rgb_psd8(out: &mut Vec<u8>, rgb: &[u8], width: u32, height: u32, fixed_dpi: u32) -> (res: Result<(), String>)
    ensures
        match flat_psd_error(rgb@.len() as int, width, height, 8, "RGB byte count does not match PSD dimensions"@) {
            None => res is Ok && final(out)@ == old(out)@ + psd_header_bytes(width as int, height as int, fixed_dpi as int, 8, seq![])
                + be16_bytes(0) + rgb_plane(rgb@, 0) + rgb_plane(rgb@, 1) + rgb_plane(rgb@, 2),
            Some(m) => res matches Err(e) && e@ == m && final(out)@ == old(out)@,
        },
{
    let w = width as u128;
    let h = height as u128;
    assert(w * h <= 0xFFFF_FFFF * 0xFFFF_FFFF) by (nonlinear_arith) requires w <= 0xFFFF_FFFF, h <= 0xFFFF_FFFF;
    let expected = w * h * 3;
    if rgb.len() as u128 != expected {
        return Err(String::from_str("RGB byte count does not match PSD dimensions"));
    }
    match write_psd_header_with_resources(out, width, height, fixed_dpi, 8, &[]) {
        Ok(()) => {},
        Err(e) => return Err(e),
    }
    be_u16(out, 0);
    push_rgb_planes8(out, rgb);
    Ok(())
}

/// Append a flat PSD version 1 file, 16-bit RGB: the header with the
/// resolution resource, then the interleaved samples `rgb` as raw
/// big-endian planes.
pub fn write_flat_rgb_psd16(out: &mut Vec<u8>, rgb: &[u16], width: u32, height: u32, fixed_dpi: u32) -> (res: Result<(), String>)
    ensures
        match flat_psd_error(rgb@.len() as int, width, height, 16, "RGB sample count does not match PSD dimensions"@) {
            None => res is Ok && final(out)@ == old(out)@ + psd_header_bytes(width as int, height as int, fixed_dpi as int, 16, seq![])
                + be16_bytes(0) + be16_samples(rgb_plane(rgb@, 0)) + be16_samples(rgb_plane(rgb@, 1)) + be16_samples(rgb_plane(rgb@, 2)),
            Some(m) => res matches Err(e) && e@ == m && final(out)@ == old(out)@,
        },
{
    let w = width as u128;
    let h = height as u128;
    assert(w * h <= 0xFFFF_FFFF * 0xFFFF_FFFF) by (nonlinear_arith) requires w <= 0xFFFF_FFFF, h <= 0xFFFF_FFFF;
    let expected = w * h * 3;
    if rgb.len() as u128 != expected {
        return Err(String::from_str("RGB sample count does not match PSD dimensions"));
    }
    match write_psd_header_with_resources(out, width, height, fixed_dpi, 16, &[]) {
        Ok(()) => {},
        Err(e) => return Err(e),
    }
    be_u16(out, 0);
    push_rgb_planes16(out, rgb);
    Ok(())
}

proof fn lemma_be16_bytes(v: int)
    requires
        0 <= v < 0x1_0000,
    ensures
        be16(be16_bytes(v), 0) == v,
        be16_bytes(v).len() == 2,
{
}

proof fn lemma_be32_bytes(v: int)
    requires
        0 <= v < 0x1_0000_0000,
    ensures
        be32(be32_bytes(v), 0) == v,
        be32_bytes(v).len() == 4,
{
}

/// A PSD header written by the exporter reads back as the image it describes:
/// three-channel RGB of the same size and depth, an empty palette, and the
/// resolution resource followed by the given resources.
#[verifier::spinoff_prover]
#[verifier::rlimit(60)]
pub proof fn lemma_header_round_trip(width: u32, height: u32, fixed_dpi: u32, depth: u16, resources: Seq<u8>, tail: Seq<u8>)
    requires
        psd_header_error(width as int, height as int, depth as int, resources.len() as int) is None,
        crate::limits::canvas_fits(width as int, height as int),
    ensures
        crate::import::psd::psd_header(psd_header_bytes(width as int, height as int, fixed_dpi as int, depth as int, resources) + tail)
            == Ok::<crate::import::psd::PsdHeaderView, Seq<char>>(crate::import::psd::PsdHeaderView {
                channels: 3,
                width: width as int,
                height: height as int,
                depth: depth as int,
                mode: 3,
                base: 3,
                palette: seq![],
                resources: resolution_resource(fixed_dpi as int) + resources,
                rest: 62 + resources.len() as int,
            }),
{
    let n = resources.len() as int;
    let fh = file_header_bytes(width as int, height as int, depth as int);
    let rr = resolution_resource(fixed_dpi as int);
    let b = psd_header_bytes(width as int, height as int, fixed_dpi as int, depth as int, resources) + tail;
    lemma_be16_bytes(1);
    lemma_be16_bytes(3);
    lemma_be16_bytes(depth as int);
    lemma_be32_bytes(height as int);
    lemma_be32_bytes(width as int);
    lemma_be32_bytes(0);
    lemma_be32_bytes(28 + n);
    lemma_be16_bytes(1005);
    lemma_be32_bytes(16);
    lemma_be32_bytes(fixed_dpi as int);
    assert(fh.len() == 26);
    assert(rr.len() == 28);
    assert(b.len() == 62 + n + 4 + tail.len());
    assert(b.subrange(0, 4) =~= psd_signature());
    assert(b.subrange(4, 6) =~= be16_bytes(1));
    assert(be16(b, 4) == 1) by { assert(b[4] == be16_bytes(1)[0]); assert(b[5] == be16_bytes(1)[1]); }
    assert forall|i: int| 6 <= i < 12 implies b[i] == 0 by {}
    assert(be16(b, 12) == 3) by { assert(b[12] == be16_bytes(3)[0]); assert(b[13] == be16_bytes(3)[1]); }
    assert(be32(b, 14) == height) by {
        assert(b[14] == be32_bytes(height as int)[0]); assert(b[15] == be32_bytes(height as int)[1]);
        assert(b[16] == be32_bytes(height as int)[2]); assert(b[17] == be32_bytes(height as int)[3]);
    }
    assert(be32(b, 18) == width) by {
        assert(b[18] == be32_bytes(width as int)[0]); assert(b[19] == be32_bytes(width as int)[1]);
        assert(b[20] == be32_bytes(width as int)[2]); assert(b[21] == be32_bytes(width as int)[3]);
    }
    assert(be16(b, 22) == depth) by { assert(b[22] == be16_bytes(depth as int)[0]); assert(b[23] == be16_bytes(depth as int)[1]); }
    assert(be16(b, 24) == 3) by { assert(b[24] == be16_bytes(3)[0]); assert(b[25] == be16_bytes(3)[1]); }
    assert(be32(b, 26) == 0) by {
        assert(b[26] == be32_bytes(0)[0]); assert(b[27] == be32_bytes(0)[1]);
        assert(b[28] == be32_bytes(0)[2]); assert(b[29] == be32_bytes(0)[3]);
    }
    assert(be32(b, 30) == 28 + n) by {
        assert(b[30] == be32_bytes(28 + n)[0]); assert(b[31] == be32_bytes(28 + n)[1]);
        assert(b[32] == be32_bytes(28 + n)[2]); assert(b[33] == be32_bytes(28 + n)[3]);
    }
    assert(b.subrange(30, 30) =~= seq![]);
    assert(b.subrange(34, 34 + 28 + n) =~= rr + resources);
    assert(crate::limits::canvas_pixels_error(width as int, height as int) is None) by {
        assert(width * height <= width * height * 16) by (nonlinear_arith)
            requires width >= 1, height >= 1;
    }
}

} // verus!
