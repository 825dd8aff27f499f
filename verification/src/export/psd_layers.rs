//! PSD layer records and planar channels, after Adobe's file-format
//! specification. Layers of 16-bit files go in the global `Lr16` block.
use vstd::prelude::*;
use crate::drawing::brush::signature_8bim;
use crate::drawing::document::{BlendMode, DirtyRect};
use crate::export::{be16_bytes, be32_bytes, be_u16, be_u32, PsdBitDepth, psd_header_bytes, psd_header_error,
    write_psd_header_with_resources};
use crate::export::psd_vectors::{solid_color, solid_color_bytes, tagged, tagged_bytes, resource, resource_bytes};
use crate::text::{str_chars, string_from_chars, push_decimal, decimal};
use crate::drawing::brush::{be16, be32, utf16_lossy, surrogate_pair};
use crate::export::lemma_be_round_trip;
use crate::import::psd::{psd_section, psd_u16s};
use crate::import::psd::layers::{Bounds, BlockState, RecordView, apply_block, block_step, blocks, record_extra, stored_mask, placed_mask,
    channel_table, psd_bounds, record_head, layer_record, layer_size_ok, signed16, opt_bytes, key_blend,
    layer_records, layer_info_records, record_count};
use crate::drawing::brush::signed32;

verus! {

// ---------------------------------------------------------------------------
// Layer descriptions.

/// The editable vector alternative carried by a shape layer: its fill color
/// and its `vmsk` path data.
pub struct LayerShape {
    pub color: [u8; 3],
    pub mask: Vec<u8>,
}

/// Everything a PSD layer record holds about one layer.
pub struct LayerHead {
    pub opacity: u8,
    pub bounds: DirtyRect,
    pub name: String,
    pub visible: bool,
    pub mode: BlendMode,
    pub id: u32,
    pub shape: Option<LayerShape>,
}

/// The four-byte blend-mode key Photoshop stores for `mode`.
pub open spec fn blend_key(mode: BlendMode) -> Seq<u8> {
    match mode {
        BlendMode::Normal => seq![0x6Eu8, 0x6Fu8, 0x72u8, 0x6Du8],
        BlendMode::Multiply => seq![0x6Du8, 0x75u8, 0x6Cu8, 0x20u8],
        BlendMode::Darken => seq![0x64u8, 0x61u8, 0x72u8, 0x6Bu8],
        BlendMode::Screen => seq![0x73u8, 0x63u8, 0x72u8, 0x6Eu8],
        BlendMode::Lighten => seq![0x6Cu8, 0x69u8, 0x74u8, 0x65u8],
        BlendMode::Saturation => seq![0x73u8, 0x61u8, 0x74u8, 0x20u8],
    }
}

/// The blend-mode key of `mode`.
pub fn key(mode: BlendMode) -> (k: [u8; 4])
    ensures
        k@ == blend_key(mode),
{
    let k: [u8; 4] = match mode {
        BlendMode::Normal => [0x6E, 0x6F, 0x72, 0x6D],
        BlendMode::Multiply => [0x6D, 0x75, 0x6C, 0x20],
        BlendMode::Darken => [0x64, 0x61, 0x72, 0x6B],
        BlendMode::Screen => [0x73, 0x63, 0x72, 0x6E],
        BlendMode::Lighten => [0x6C, 0x69, 0x74, 0x65],
        BlendMode::Saturation => [0x73, 0x61, 0x74, 0x20],
    };
    assert(k@ =~= blend_key(mode));
    k
}

// ---------------------------------------------------------------------------
// Names.

/// The byte stored for `c` in a Pascal name: itself when ASCII, else `?`.
pub open spec fn ascii_byte(c: char) -> u8 {
    if (c as u32) < 128 { (c as u32) as u8 } else { 0x3Fu8 }
}

/// `n` zero bytes.
pub open spec fn zeros(n: int) -> Seq<u8> {
    Seq::new(n as nat, |_i: int| 0u8)
}

/// The zero padding that brings `n` bytes to a multiple of four.
pub open spec fn pad4(n: int) -> int {
    (4 - n % 4) % 4
}

/// The Pascal name of a layer: a length byte, at most 255 ASCII bytes, and
/// zeros up to a multiple of four.
pub open spec fn padded_name_bytes(name: Seq<char>) -> Seq<u8> {
    let n = if name.len() < 255 { name.len() as int } else { 255int };
    seq![n as u8] + name.take(n).map_values(|c: char| ascii_byte(c)) + zeros(pad4(n + 1))
}

/// The UTF-16 code units of one character.
pub open spec fn char_units(c: char) -> Seq<u16> {
    let v = (c as u32) as int;
    if v < 0x10000 {
        seq![v as u16]
    } else {
        seq![(0xD800 + (v - 0x10000) / 0x400) as u16, (0xDC00 + (v - 0x10000) % 0x400) as u16]
    }
}

/// The UTF-16 encoding of `s`.
pub open spec fn utf16_units(s: Seq<char>) -> Seq<u16>
    decreases s.len(),
{
    if s.len() == 0 { seq![] } else { char_units(s[0]) + utf16_units(s.skip(1)) }
}

/// Code units as big-endian bytes.
pub open spec fn units_bytes(u: Seq<u16>) -> Seq<u8>
    decreases u.len(),
{
    if u.len() == 0 { seq![] } else { be16_bytes(u[0] as int) + units_bytes(u.skip(1)) }
}

/// The payload of a `luni` block: the unit count, the units, and zeros up
/// to a multiple of four.
pub open spec fn luni_body(name: Seq<char>) -> Seq<u8> {
    let u = utf16_units(name);
    be32_bytes(u.len() as int % 0x1_0000_0000) + units_bytes(u) + zeros(pad4(2 * u.len() as int))
}

/// A tagged block with an eight-byte signature and key and a 32-bit length.
pub open spec fn block_bytes(tag: Seq<u8>, body: Seq<u8>) -> Seq<u8> {
    signature_8bim() + tag + be32_bytes(body.len() as int) + body
}

pub open spec fn luni_tag() -> Seq<u8> {
    seq![0x6Cu8, 0x75u8, 0x6Eu8, 0x69u8]
}

pub open spec fn lyid_tag() -> Seq<u8> {
    seq![0x6Cu8, 0x79u8, 0x69u8, 0x64u8]
}

pub open spec fn soco_tag() -> Seq<u8> {
    seq![0x53u8, 0x6Fu8, 0x43u8, 0x6Fu8]
}

pub open spec fn vmsk_tag() -> Seq<u8> {
    seq![0x76u8, 0x6Du8, 0x73u8, 0x6Bu8]
}

/// The tagged blocks of a shape layer: its solid fill and its vector mask.
#[verifier::opaque]
pub open spec fn shape_blocks(shape: Option<LayerShape>) -> Seq<u8> {
    match shape {
        None => seq![],
        Some(s) => tagged_bytes(soco_tag(), solid_color_bytes(s.color)) + tagged_bytes(vmsk_tag(), s.mask@),
    }
}

#[verifier::opaque]
/// The extra data of a record: no user mask, default blending ranges, the
/// Pascal name, the Unicode name, the layer id and any shape blocks.
pub open spec fn extra_bytes(layer: LayerHead) -> Seq<u8> {
    be32_bytes(0) + be32_bytes(0) + padded_name_bytes(layer.name@) + tail_blocks(layer)
}

/// The bytes of a sample at `depth` bits.
pub open spec fn sample_bytes(depth: int) -> int {
    depth / 8
}

/// The stored length of each of a layer's channels: a compression word and
/// its samples.
pub open spec fn channel_length(bounds: DirtyRect, depth: int) -> int {
    2 + bounds.spec_width() * bounds.spec_height() * sample_bytes(depth)
}

/// The channel table of a pixel layer: red, green, blue and transparency.
pub open spec fn channel_table_bytes(length: int) -> Seq<u8> {
    be16_bytes(0) + be32_bytes(length) + be16_bytes(1) + be32_bytes(length)
        + be16_bytes(2) + be32_bytes(length) + be16_bytes(65535) + be32_bytes(length)
}

/// The flags byte: hidden layers set bit 1, shape layers bits 3 and 4.
pub open spec fn flags_byte(visible: bool, shape: bool) -> u8 {
    ((if visible { 0u8 } else { 2u8 }) | (if shape { 24u8 } else { 0u8 })) as u8
}

/// A coordinate as the 32-bit field it is stored in.
pub open spec fn coord_bytes(v: usize) -> Seq<u8> {
    be32_bytes(v as int % 0x1_0000_0000)
}

#[verifier::opaque]
/// The layer record of `layer` at `depth` bits per sample.
pub open spec fn record_bytes(layer: LayerHead, depth: int) -> Seq<u8> {
    let r = layer.bounds;
    let extra = extra_bytes(layer);
    coord_bytes(r.min_y) + coord_bytes(r.min_x) + coord_bytes(r.max_y) + coord_bytes(r.max_x)
        + (if layer.shape is Some { be16_bytes(0) } else { be16_bytes(4) + channel_table_bytes(channel_length(r, depth)) })
        + signature_8bim() + blend_key(layer.mode)
        + seq![layer.opacity, 0u8, flags_byte(layer.visible, layer.shape is Some), 0u8]
        + be32_bytes(extra.len() as int) + extra
}

/// The refusal of a layer record, if any.
pub open spec fn record_error(layer: LayerHead, depth: int) -> Option<Seq<char>> {
    if channel_length(layer.bounds, depth) > u32::MAX {
        Some("PSD layer channel exceeds 4 GB"@)
    } else if extra_bytes(layer).len() > u32::MAX {
        Some("PSD section exceeds 4 GB; reduce document size or layer count"@)
    } else {
        None
    }
}


// ---------------------------------------------------------------------------
// Encoding lemmas.

proof fn lemma_utf16_push(s: Seq<char>, c: char)
    ensures
        utf16_units(s.push(c)) == utf16_units(s) + char_units(c),
    decreases s.len(),
{
    if s.len() == 0 {
        assert(s.push(c).skip(1) =~= Seq::<char>::empty());
        assert(utf16_units(s.push(c)) =~= char_units(c) + utf16_units(Seq::<char>::empty()));
    } else {
        lemma_utf16_push(s.skip(1), c);
        assert(s.push(c).skip(1) =~= s.skip(1).push(c));
        assert(utf16_units(s.push(c)) =~= utf16_units(s) + char_units(c));
    }
}

proof fn lemma_units_bytes_push(u: Seq<u16>, x: u16)
    ensures
        units_bytes(u.push(x)) == units_bytes(u) + be16_bytes(x as int),
    decreases u.len(),
{
    if u.len() == 0 {
        assert(u.push(x).skip(1) =~= Seq::<u16>::empty());
        assert(units_bytes(u.push(x)) =~= be16_bytes(x as int) + units_bytes(Seq::<u16>::empty()));
    } else {
        lemma_units_bytes_push(u.skip(1), x);
        assert(u.push(x).skip(1) =~= u.skip(1).push(x));
        assert(units_bytes(u.push(x)) =~= units_bytes(u) + be16_bytes(x as int));
    }
}

proof fn lemma_units_bytes_len(u: Seq<u16>)
    ensures
        units_bytes(u).len() == 2 * u.len(),
    decreases u.len(),
{
    if u.len() > 0 {
        lemma_units_bytes_len(u.skip(1));
    }
}

// ---------------------------------------------------------------------------
// Encoders.

/// The UTF-16 encoding of `chars`.
fn utf16_of(chars: &[char]) -> (u: Vec<u16>)
    ensures
        u@ == utf16_units(chars@),
{
    let mut u: Vec<u16> = Vec::new();
    let mut i: usize = 0;
    while i < chars.len()
        invariant
            i <= chars@.len(),
            u@ == utf16_units(chars@.take(i as int)),
        decreases chars@.len() - i,
    {
        let c = chars[i];
        proof {
            vstd::utf8::char_is_scalar(c);
            lemma_utf16_push(chars@.take(i as int), c);
            assert(chars@.take(i + 1) =~= chars@.take(i as int).push(c));
        }
        let v = c as u32;
        if v < 0x10000 {
            u.push(v as u16);
        } else {
            let w = v - 0x10000;
            u.push((0xD800 + w / 0x400) as u16);
            u.push((0xDC00 + w % 0x400) as u16);
        }
        assert(u@ =~= utf16_units(chars@.take(i + 1)));
        i += 1;
    }
    assert(chars@.take(chars@.len() as int) =~= chars@);
    u
}

/// Append `n` zero bytes.
fn push_zeros(out: &mut Vec<u8>, n: usize)
    ensures
        final(out)@ == old(out)@ + zeros(n as int),
{
    let mut i: usize = 0;
    while i < n
        invariant
            i <= n,
            out@ == old(out)@ + zeros(i as int),
        decreases n - i,
    {
        out.push(0);
        i += 1;
        assert(out@ =~= old(out)@ + zeros(i as int));
    }
}

/// Append the Pascal name of `chars`.
fn push_padded_name(out: &mut Vec<u8>, chars: &[char])
    ensures
        final(out)@ == old(out)@ + padded_name_bytes(chars@),
{
    let n: usize = if chars.len() < 255 { chars.len() } else { 255 };
    out.push(n as u8);
    let ghost head = out@;
    let mut i: usize = 0;
    while i < n
        invariant
            i <= n,
            n <= chars@.len(),
            n <= 255,
            out@ == head + chars@.take(i as int).map_values(|c: char| ascii_byte(c)),
        decreases n - i,
    {
        let c = chars[i];
        proof { vstd::utf8::char_is_scalar(c); }
        let v = c as u32;
        let b: u8 = if v < 128 { v as u8 } else { 0x3F };
        out.push(b);
        assert(chars@.take(i + 1).map_values(|c: char| ascii_byte(c))
            =~= chars@.take(i as int).map_values(|c: char| ascii_byte(c)).push(ascii_byte(c)));
        i += 1;
    }
    push_zeros(out, (4 - (n + 1) % 4) % 4);
    assert(out@ =~= old(out)@ + padded_name_bytes(chars@));
}

/// The payload of the `luni` block of `chars`, or `None` when it would not
/// fit a 32-bit length.
fn luni_payload(chars: &[char]) -> (b: Option<Vec<u8>>)
    ensures
        match b {
            Some(v) => v@ == luni_body(chars@) && v@.len() <= u32::MAX,
            None => luni_body(chars@).len() > u32::MAX,
        },
{
    let units = utf16_of(chars);
    let n = units.len();
    proof { lemma_units_bytes_len(units@); }
    if n > 0x7FFF_FFFC {
        return None;
    }
    let mut b: Vec<u8> = Vec::new();
    be_u32(&mut b, n as u32);
    let mut i: usize = 0;
    while i < n
        invariant
            i <= n,
            n == units@.len(),
            b@ == be32_bytes(n as int) + units_bytes(units@.take(i as int)),
        decreases n - i,
    {
        proof {
            lemma_units_bytes_push(units@.take(i as int), units@[i as int]);
            assert(units@.take(i + 1) =~= units@.take(i as int).push(units@[i as int]));
        }
        be_u16(&mut b, units[i]);
        i += 1;
    }
    assert(units@.take(n as int) =~= units@);
    push_zeros(&mut b, (4 - (2 * n) % 4) % 4);
    assert(b@ =~= luni_body(chars@));
    Some(b)
}

/// Append a tagged block with a 32-bit length.
fn push_block(out: &mut Vec<u8>, tag: &[u8; 4], body: &[u8])
    requires
        body@.len() <= u32::MAX,
    ensures
        final(out)@ == old(out)@ + block_bytes(tag@, body@),
{
    out.push(0x38); out.push(0x42); out.push(0x49); out.push(0x4D);
    out.push(tag[0]); out.push(tag[1]); out.push(tag[2]); out.push(tag[3]);
    be_u32(out, body.len() as u32);
    out.extend_from_slice(body);
    assert(out@ =~= old(out)@ + block_bytes(tag@, body@));
}

/// The extra data of `layer`'s record, or `None` when it would not fit a
/// 32-bit length.
fn extra_data(layer: &LayerHead) -> (b: Option<Vec<u8>>)
    ensures
        match b {
            Some(v) => v@ == extra_bytes(*layer),
            None => extra_bytes(*layer).len() > u32::MAX,
        },
{
    let chars = str_chars(layer.name.as_str());
    let body = match luni_payload(chars.as_slice()) {
        Some(body) => body,
        None => {
            proof { reveal(extra_bytes); reveal(name_id_blocks); }
            return None;
        },
    };
    let mut b: Vec<u8> = Vec::new();
    be_u32(&mut b, 0);
    be_u32(&mut b, 0);
    push_padded_name(&mut b, chars.as_slice());
    push_block(&mut b, &[0x6C, 0x75, 0x6E, 0x69], body.as_slice());
    let mut id_bytes: Vec<u8> = Vec::new();
    be_u32(&mut id_bytes, layer.id);
    push_block(&mut b, &[0x6C, 0x79, 0x69, 0x64], id_bytes.as_slice());
    match &layer.shape {
        None => {},
        Some(shape) => {
            let color = solid_color(shape.color);
            tagged(&mut b, &[0x53, 0x6F, 0x43, 0x6F], color.as_slice());
            tagged(&mut b, &[0x76, 0x6D, 0x73, 0x6B], shape.mask.as_slice());
        },
    }
    proof { reveal(extra_bytes); reveal(shape_blocks); reveal(name_id_blocks); }
    assert(b@ =~= extra_bytes(*layer));
    Some(b)
}

/// The stored length of each channel of a `bounds` layer, or `None` when it
/// exceeds 32 bits.
fn channel_size(bounds: DirtyRect, depth: u16) -> (n: Option<u32>)
    ensures
        match n {
            Some(v) => v == channel_length(bounds, depth as int),
            None => channel_length(bounds, depth as int) > u32::MAX,
        },
{
    let w = bounds.width() as u64;
    let h = bounds.height() as u64;
    let s = (depth / 8) as u64;
    if s == 0 {
        assert(w * h * s == 0) by (nonlinear_arith) requires s == 0;
        return Some(2);
    }
    let area = match w.checked_mul(h) {
        Some(a) => a,
        None => {
            assert(w * h * s + 2 > u32::MAX) by (nonlinear_arith)
                requires w * h > u64::MAX, s >= 1;
            return None;
        },
    };
    let samples = match area.checked_mul(s) {
        Some(a) => a,
        None => return None,
    };
    if samples > 0xFFFF_FFFD {
        return None;
    }
    Some((samples + 2) as u32)
}


/// The rectangle, channel count and channel table of a record.
pub open spec fn record_head_bytes(r: DirtyRect, shape: bool, length: int) -> Seq<u8> {
    coord_bytes(r.min_y) + coord_bytes(r.min_x) + coord_bytes(r.max_y) + coord_bytes(r.max_x)
        + (if shape { be16_bytes(0) } else { be16_bytes(4) + channel_table_bytes(length) })
}

/// The blend signature and key, opacity, clipping, flags and filler byte.
pub open spec fn blend_fields_bytes(mode: BlendMode, opacity: u8, visible: bool, shape: bool) -> Seq<u8> {
    signature_8bim() + blend_key(mode) + seq![opacity, 0u8, flags_byte(visible, shape), 0u8]
}

proof fn lemma_record_bytes_split(layer: LayerHead, depth: int)
    ensures
        record_bytes(layer, depth) == record_head_bytes(layer.bounds, layer.shape is Some, channel_length(layer.bounds, depth))
            + blend_fields_bytes(layer.mode, layer.opacity, layer.visible, layer.shape is Some)
            + be32_bytes(extra_bytes(layer).len() as int) + extra_bytes(layer),
{
    reveal(record_bytes);
    assert(record_bytes(layer, depth) =~= record_head_bytes(layer.bounds, layer.shape is Some, channel_length(layer.bounds, depth))
            + blend_fields_bytes(layer.mode, layer.opacity, layer.visible, layer.shape is Some)
            + be32_bytes(extra_bytes(layer).len() as int) + extra_bytes(layer));
}

fn push_record_head(out: &mut Vec<u8>, r: DirtyRect, shape: bool, length: u32)
    ensures
        final(out)@ == old(out)@ + record_head_bytes(r, shape, length as int),
{
    be_u32(out, (r.min_y as u64 % 0x1_0000_0000) as u32);
    be_u32(out, (r.min_x as u64 % 0x1_0000_0000) as u32);
    be_u32(out, (r.max_y as u64 % 0x1_0000_0000) as u32);
    be_u32(out, (r.max_x as u64 % 0x1_0000_0000) as u32);
    let ghost rect = out@;
    if shape {
        be_u16(out, 0);
    } else {
        be_u16(out, 4);
        be_u16(out, 0);
        be_u32(out, length);
        be_u16(out, 1);
        be_u32(out, length);
        be_u16(out, 2);
        be_u32(out, length);
        be_u16(out, 65535);
        be_u32(out, length);
    }
    assert(out@ =~= old(out)@ + record_head_bytes(r, shape, length as int));
}

fn push_blend_fields(out: &mut Vec<u8>, mode: BlendMode, opacity: u8, visible: bool, shape: bool)
    ensures
        final(out)@ == old(out)@ + blend_fields_bytes(mode, opacity, visible, shape),
{
    out.push(0x38); out.push(0x42); out.push(0x49); out.push(0x4D);
    let k = key(mode);
    out.push(k[0]); out.push(k[1]); out.push(k[2]); out.push(k[3]);
    let hidden: u8 = if visible { 0 } else { 2 };
    let vector: u8 = if shape { 24 } else { 0 };
    out.push(opacity);
    out.push(0);
    out.push(hidden | vector);
    out.push(0);
    assert(out@ =~= old(out)@ + blend_fields_bytes(mode, opacity, visible, shape));
}

#[verifier::spinoff_prover]
#[verifier::rlimit(40)]
/// Append `layer`'s record at `depth` bits per sample. On a refusal nothing
/// is appended.
pub fn write_record(out: &mut Vec<u8>, layer: &LayerHead, depth: u16) -> (res: Result<(), String>)
    ensures
        match record_error(*layer, depth as int) {
            None => res is Ok && final(out)@ == old(out)@ + record_bytes(*layer, depth as int),
            Some(m) => res matches Err(e) && e@ == m && final(out)@ == old(out)@,
        },
{
    let length = match channel_size(layer.bounds, depth) {
        Some(n) => n,
        None => return Err(String::from_str("PSD layer channel exceeds 4 GB")),
    };
    let extra = match extra_data(layer) {
        Some(b) => b,
        None => return Err(String::from_str("PSD section exceeds 4 GB; reduce document size or layer count")),
    };
    let n = extra.len();
    if n > 0xFFFF_FFFF {
        return Err(String::from_str("PSD section exceeds 4 GB; reduce document size or layer count"));
    }
    let ghost start = out@;
    push_record_head(out, layer.bounds, layer.shape.is_some(), length);
    let ghost mid = out@;
    push_blend_fields(out, layer.mode, layer.opacity, layer.visible, layer.shape.is_some());
    let ghost tail = out@;
    be_u32(out, n as u32);
    out.extend_from_slice(extra.as_slice());
    proof { lemma_record_bytes_split(*layer, depth as int); }
    assert(out@ =~= old(out)@ + record_bytes(*layer, depth as int));
    Ok(())
}


// ---------------------------------------------------------------------------
// Reading records back.

/// A slice of a slice is a slice of the whole.
proof fn lemma_sub_of_sub(x: Seq<u8>, a: int, b: int, t: Seq<u8>, i: int, j: int)
    requires
        0 <= a <= b <= x.len(),
        x.subrange(a, b) == t,
        0 <= i <= j <= t.len(),
    ensures
        x.subrange(a + i, a + j) == t.subrange(i, j),
{
    assert forall|k: int| 0 <= k < j - i implies x.subrange(a + i, a + j)[k] == t.subrange(i, j)[k] by {
        assert(x.subrange(a, b)[i + k] == x[a + i + k]);
    }
    assert(x.subrange(a + i, a + j) =~= t.subrange(i, j));
}

/// Reading big-endian bytes of `v` stored at `p` gives `v`.
proof fn lemma_be32_at(s: Seq<u8>, p: int, v: int)
    requires
        0 <= p,
        p + 4 <= s.len(),
        0 <= v <= u32::MAX,
        s.subrange(p, p + 4) == be32_bytes(v),
    ensures
        be32(s, p) == v,
{
    let b = be32_bytes(v);
    assert(s[p] == b[0] && s[p + 1] == b[1] && s[p + 2] == b[2] && s[p + 3] == b[3]) by {
        assert(s.subrange(p, p + 4)[0] == s[p]);
        assert(s.subrange(p, p + 4)[1] == s[p + 1]);
        assert(s.subrange(p, p + 4)[2] == s[p + 2]);
        assert(s.subrange(p, p + 4)[3] == s[p + 3]);
    }
    lemma_be_round_trip(0, v as u32);
}

proof fn lemma_be16_at(s: Seq<u8>, p: int, v: int)
    requires
        0 <= p,
        p + 2 <= s.len(),
        0 <= v <= u16::MAX,
        s.subrange(p, p + 2) == be16_bytes(v),
    ensures
        be16(s, p) == v,
{
    let b = be16_bytes(v);
    assert(s[p] == b[0] && s[p + 1] == b[1]) by {
        assert(s.subrange(p, p + 2)[0] == s[p]);
        assert(s.subrange(p, p + 2)[1] == s[p + 1]);
    }
    lemma_be_round_trip(v as u16, 0);
}

/// Reading `u.len()` units stored as [`units_bytes`] gives `u`.
proof fn lemma_u16s_read(s: Seq<u8>, pos: int, u: Seq<u16>, acc: Seq<int>)
    requires
        0 <= pos,
        pos + 2 * u.len() <= s.len(),
        s.subrange(pos, pos + 2 * u.len()) == units_bytes(u),
    ensures
        psd_u16s(s, pos, u.len(), acc) == Ok::<(Seq<int>, int), Seq<char>>((acc + u.map_values(|x: u16| x as int), pos + 2 * u.len())),
    decreases u.len(),
{
    if u.len() == 0 {
        assert(acc + u.map_values(|x: u16| x as int) =~= acc);
    } else {
        lemma_units_bytes_len(u.skip(1));
        assert(s.subrange(pos, pos + 2) =~= be16_bytes(u[0] as int)) by {
            assert(s.subrange(pos, pos + 2) =~= s.subrange(pos, pos + 2 * u.len()).subrange(0, 2));
        }
        lemma_be16_at(s, pos, u[0] as int);
        assert(s.subrange(pos + 2, pos + 2 + 2 * u.skip(1).len()) =~= units_bytes(u.skip(1))) by {
            assert(s.subrange(pos + 2, pos + 2 + 2 * u.skip(1).len())
                =~= s.subrange(pos, pos + 2 * u.len()).subrange(2, 2 * u.len() as int));
        }
        lemma_u16s_read(s, pos + 2, u.skip(1), acc.push(u[0] as int));
        assert(acc.push(u[0] as int) + u.skip(1).map_values(|x: u16| x as int) =~= acc + u.map_values(|x: u16| x as int));
    }
}

/// Decoding the UTF-16 encoding of a string gives the string back.
proof fn lemma_utf16_round_trip(cs: Seq<char>)
    ensures
        utf16_lossy(utf16_units(cs)) == cs,
    decreases cs.len(),
{
    if cs.len() > 0 {
        let c = cs[0];
        let u = utf16_units(cs);
        vstd::utf8::char_is_scalar(c);
        vstd::utf8::char_u32_cast(c, c as u32);
        lemma_utf16_round_trip(cs.skip(1));
        let v = (c as u32) as int;
        if v < 0x10000 {
            assert(u.skip(1) =~= utf16_units(cs.skip(1)));
            assert(u[0] as int == v);
            assert((u[0] as char) == c);
        } else {
            let w = v - 0x10000;
            assert(u.skip(2) =~= utf16_units(cs.skip(1)));
            assert(u[0] as int == 0xD800 + w / 0x400);
            assert(u[1] as int == 0xDC00 + w % 0x400);
            assert(surrogate_pair(u[0], u[1]) == c);
        }
        assert(utf16_lossy(u) =~= cs);
    }
}

/// A tagged block whose data is even and fits 32 bits is its own tagged form.
proof fn lemma_block_is_tagged(tag: Seq<u8>, body: Seq<u8>)
    requires
        body.len() % 2 == 0,
        body.len() <= u32::MAX,
    ensures
        block_bytes(tag, body) == tagged_bytes(tag, body),
{
    assert(body.len() as int % 0x1_0000_0000 == body.len());
    assert(block_bytes(tag, body) =~= tagged_bytes(tag, body));
}

/// The fields of a tagged block written by [`tagged_bytes`], as read back.
proof fn lemma_tagged_parts(x: Seq<u8>, pos: int, tag: Seq<u8>, body: Seq<u8>)
    requires
        0 <= pos,
        tag.len() == 4,
        body.len() <= u32::MAX,
        pos + tagged_bytes(tag, body).len() <= x.len(),
        x.subrange(pos, pos + tagged_bytes(tag, body).len()) == tagged_bytes(tag, body),
    ensures
        be32(x, pos) == 0x3842494d,
        be32(x, pos + 4) == be32(tag, 0),
        psd_section(x, pos + 8) == Ok::<(Seq<u8>, int), Seq<char>>((body, pos + 12 + body.len())),
        tagged_bytes(tag, body).len() == pos_after(body.len() as int) ,
        body.len() % 2 != 0 ==> pos + 12 + body.len() + 1 <= x.len(),
{
    let t = tagged_bytes(tag, body);
    let n = body.len() as int;
    assert(n % 0x1_0000_0000 == n);
    let xs = x.subrange(pos, pos + t.len());
    assert(t.subrange(0, 4) =~= signature_8bim());
    assert(t.subrange(4, 8) =~= tag);
    assert(t.subrange(8, 12) =~= be32_bytes(n));
    assert(t.subrange(12, 12 + n) =~= body);
    assert(x.subrange(pos, pos + 4) =~= xs.subrange(0, 4));
    assert(x.subrange(pos + 4, pos + 8) =~= xs.subrange(4, 8));
    assert(x.subrange(pos + 8, pos + 12) =~= xs.subrange(8, 12));
    assert(x.subrange(pos + 12, pos + 12 + n) =~= xs.subrange(12, 12 + n));
    assert(be32_bytes(0x3842494d) =~= signature_8bim());
    lemma_be32_at(x, pos, 0x3842494d);
    assert(x[pos + 4] == tag[0] && x[pos + 5] == tag[1] && x[pos + 6] == tag[2] && x[pos + 7] == tag[3]) by {
        assert(x.subrange(pos + 4, pos + 8)[0] == x[pos + 4]);
        assert(x.subrange(pos + 4, pos + 8)[1] == x[pos + 5]);
        assert(x.subrange(pos + 4, pos + 8)[2] == x[pos + 6]);
        assert(x.subrange(pos + 4, pos + 8)[3] == x[pos + 7]);
    }
    lemma_be32_at(x, pos + 8, n);
}

/// The length of a tagged block holding `n` bytes.
pub open spec fn pos_after(n: int) -> int {
    if n % 2 != 0 { 13 + n } else { 12 + n }
}

/// The importer's reading of one tagged block written by [`tagged_bytes`].
proof fn lemma_tagged_step(x: Seq<u8>, pos: int, tag: Seq<u8>, body: Seq<u8>, st: BlockState)
    requires
        0 <= pos,
        tag.len() == 4,
        body.len() <= u32::MAX,
        pos + tagged_bytes(tag, body).len() <= x.len(),
        x.subrange(pos, pos + tagged_bytes(tag, body).len()) == tagged_bytes(tag, body),
    ensures
        block_step(x, pos, st) == (match apply_block(be32(tag, 0), body, st) {
            Err(e) => Err(e),
            Ok(next) => Ok((next, pos + tagged_bytes(tag, body).len())),
        }),
{
    lemma_tagged_parts(x, pos, tag, body);
}


/// The importer's reading of a `luni` payload: the name it encodes.
#[verifier::spinoff_prover]
#[verifier::rlimit(50)]
proof fn lemma_luni_apply(name: Seq<char>, st: BlockState)
    requires
        utf16_units(name).len() <= 32768,
    ensures
        apply_block(0x6c756e69, luni_body(name), st) == Ok::<BlockState, Seq<char>>(BlockState { name, ..st }),
{
    let u = utf16_units(name);
    let b = luni_body(name);
    let n = u.len() as int;
    lemma_units_bytes_len(u);
    assert(n % 0x1_0000_0000 == n);
    assert(b.subrange(0, 4) =~= be32_bytes(n));
    lemma_be32_at(b, 0, n);
    assert(b.subrange(4, 4 + 2 * n) =~= units_bytes(u));
    lemma_u16s_read(b, 4, u, seq![]);
    let read = Seq::<int>::empty() + u.map_values(|x: u16| x as int);
    assert(read.map_values(|v: int| v as u16) =~= u);
    lemma_utf16_round_trip(name);
}

/// What the importer learns from a record's tagged blocks.
pub open spec fn written_blocks(layer: LayerHead) -> BlockState {
    BlockState {
        name: layer.name@,
        blend: blend_key(layer.mode),
        group: 0,
        effects: false,
        fill_opacity: 255,
        vector: match layer.shape { Some(s) => Some(s.mask@), None => None },
        fill: match layer.shape { Some(s) => Some(solid_color_bytes(s.color)), None => None },
        style: None,
    }
}


/// The `luni` and `lyid` blocks of a record.
#[verifier::opaque]
pub open spec fn name_id_blocks(layer: LayerHead) -> Seq<u8> {
    block_bytes(luni_tag(), luni_body(layer.name@)) + block_bytes(lyid_tag(), be32_bytes(layer.id as int))
}

/// The tagged blocks that follow the Pascal name of a record.
pub open spec fn tail_blocks(layer: LayerHead) -> Seq<u8> {
    name_id_blocks(layer) + shape_blocks(layer.shape)
}

proof fn lemma_luni_body_even(name: Seq<char>)
    ensures
        luni_body(name).len() % 4 == 0,
        luni_body(name).len() == 4 + 2 * utf16_units(name).len() + pad4(2 * utf16_units(name).len() as int),
{
    lemma_units_bytes_len(utf16_units(name));
}

/// One tagged block at `pos`, then the blocks that follow it.
proof fn lemma_blocks_one(x: Seq<u8>, pos: int, tag: Seq<u8>, body: Seq<u8>, st: BlockState, next: BlockState)
    requires
        0 <= pos,
        tag.len() == 4,
        body.len() <= u32::MAX,
        pos + tagged_bytes(tag, body).len() <= x.len(),
        x.subrange(pos, pos + tagged_bytes(tag, body).len()) == tagged_bytes(tag, body),
        apply_block(be32(tag, 0), body, st) == Ok::<BlockState, Seq<char>>(next),
    ensures
        blocks(x, pos, st) == blocks(x, pos + tagged_bytes(tag, body).len(), next),
{
    lemma_tagged_step(x, pos, tag, body, st);
}

/// The importer's reading of a `luni` block at `pos`.
#[verifier::spinoff_prover]
proof fn lemma_luni_step(x: Seq<u8>, pos: int, name: Seq<char>, st: BlockState)
    requires
        0 <= pos,
        x.len() <= u32::MAX,
        pos + block_bytes(luni_tag(), luni_body(name)).len() <= x.len(),
        x.subrange(pos, pos + block_bytes(luni_tag(), luni_body(name)).len()) == block_bytes(luni_tag(), luni_body(name)),
        utf16_units(name).len() <= 32768,
    ensures
        blocks(x, pos, st) == blocks(x, pos + block_bytes(luni_tag(), luni_body(name)).len(), BlockState { name, ..st }),
{
    let b1 = luni_body(name);
    lemma_luni_body_even(name);
    lemma_block_is_tagged(luni_tag(), b1);
    assert(be32(luni_tag(), 0) == 0x6c756e69);
    lemma_luni_apply(name, st);
    lemma_blocks_one(x, pos, luni_tag(), b1, st, BlockState { name, ..st });
}

/// The importer's reading of a `lyid` block at `pos`: nothing it keeps.
#[verifier::spinoff_prover]
proof fn lemma_lyid_step(x: Seq<u8>, pos: int, id: u32, st: BlockState)
    requires
        0 <= pos,
        pos + block_bytes(lyid_tag(), be32_bytes(id as int)).len() <= x.len(),
        x.subrange(pos, pos + block_bytes(lyid_tag(), be32_bytes(id as int)).len()) == block_bytes(lyid_tag(), be32_bytes(id as int)),
    ensures
        blocks(x, pos, st) == blocks(x, pos + block_bytes(lyid_tag(), be32_bytes(id as int)).len(), st),
{
    let b2 = be32_bytes(id as int);
    lemma_block_is_tagged(lyid_tag(), b2);
    assert(be32(lyid_tag(), 0) == 0x6c796964);
    assert(apply_block(0x6c796964, b2, st) == Ok::<BlockState, Seq<char>>(st));
    lemma_blocks_one(x, pos, lyid_tag(), b2, st, st);
}

/// The importer's reading of the `luni` and `lyid` blocks.
#[verifier::spinoff_prover]
proof fn lemma_name_id_blocks(x: Seq<u8>, pos: int, layer: LayerHead, st: BlockState)
    requires
        0 <= pos,
        pos + name_id_blocks(layer).len() <= x.len(),
        x.len() <= u32::MAX,
        x.subrange(pos, pos + name_id_blocks(layer).len()) == name_id_blocks(layer),
        utf16_units(layer.name@).len() <= 32768,
    ensures
        blocks(x, pos, st) == blocks(x, pos + name_id_blocks(layer).len(), BlockState { name: layer.name@, ..st }),
{
    reveal(name_id_blocks);
    let l = block_bytes(luni_tag(), luni_body(layer.name@));
    let y = block_bytes(lyid_tag(), be32_bytes(layer.id as int));
    let t = name_id_blocks(layer);
    assert(t =~= l + y);
    assert(t.subrange(0, l.len() as int) =~= l);
    lemma_sub_of_sub(x, pos, pos + t.len(), t, 0, l.len() as int);
    lemma_luni_step(x, pos, layer.name@, st);
    assert(t.subrange(l.len() as int, t.len() as int) =~= y);
    lemma_sub_of_sub(x, pos, pos + t.len(), t, l.len() as int, t.len() as int);
    lemma_lyid_step(x, pos + l.len(), layer.id, BlockState { name: layer.name@, ..st });
}

/// The importer's reading of the blocks written after a record's name.
proof fn lemma_tail_blocks(x: Seq<u8>, pos: int, layer: LayerHead, st: BlockState)
    requires
        0 <= pos <= x.len(),
        x.len() <= u32::MAX,
        x.subrange(pos, x.len() as int) == tail_blocks(layer),
        utf16_units(layer.name@).len() <= 32768,
        st.vector is None,
        st.fill is None,
    ensures
        blocks(x, pos, st) == Ok::<BlockState, Seq<char>>(BlockState {
            name: layer.name@,
            vector: written_blocks(layer).vector,
            fill: written_blocks(layer).fill,
            ..st
        }),
{
    let t = tail_blocks(layer);
    let l = name_id_blocks(layer).len() as int;
    assert(t.subrange(0, l) =~= name_id_blocks(layer));
    lemma_sub_of_sub(x, pos, x.len() as int, t, 0, l);
    lemma_name_id_blocks(x, pos, layer, st);
    let st1 = BlockState { name: layer.name@, ..st };
    let p2 = pos + l;
    assert(t.subrange(l, t.len() as int) =~= shape_blocks(layer.shape));
    lemma_sub_of_sub(x, pos, x.len() as int, t, l, t.len() as int);
    match layer.shape {
        None => {
            assert(shape_blocks(layer.shape).len() == 0) by { reveal(shape_blocks); }
            assert(p2 == x.len());
            assert(blocks(x, p2, st1) == Ok::<BlockState, Seq<char>>(st1));
        },
        Some(sh) => {
            let c = solid_color_bytes(sh.color);
            let m = sh.mask@;
            assert(shape_blocks(layer.shape) == tagged_bytes(soco_tag(), c) + tagged_bytes(vmsk_tag(), m)) by { reveal(shape_blocks); }
            lemma_fill_and_mask(x, p2, c, m, st1);
        },
    }
}

/// The importer's reading of a shape layer's fill and vector-mask blocks.
#[verifier::rlimit(100)]
proof fn lemma_fill_and_mask(x: Seq<u8>, pos: int, c: Seq<u8>, m: Seq<u8>, st: BlockState)
    requires
        0 <= pos <= x.len(),
        x.len() <= u32::MAX,
        x.subrange(pos, x.len() as int) == tagged_bytes(soco_tag(), c) + tagged_bytes(vmsk_tag(), m),
    ensures
        blocks(x, pos, st) == Ok::<BlockState, Seq<char>>(BlockState { vector: Some(m), fill: Some(c), ..st }),
{
    let t1 = tagged_bytes(soco_tag(), c);
    let t2 = tagged_bytes(vmsk_tag(), m);
    let t = t1 + t2;
    let l3 = t1.len() as int;
    let l4 = t2.len() as int;
    assert(l3 >= 12 + c.len() && l4 >= 12 + m.len());
    assert(t.len() == x.len() - pos);
    assert(t.subrange(0, l3) =~= t1);
    lemma_sub_of_sub(x, pos, x.len() as int, t, 0, l3);
    assert(be32(soco_tag(), 0) == 0x536f436f);
    let st2 = BlockState { fill: Some(c), ..st };
    lemma_blocks_one(x, pos, soco_tag(), c, st, st2);
    assert(t.subrange(l3, l3 + l4) =~= t2);
    lemma_sub_of_sub(x, pos, x.len() as int, t, l3, l3 + l4);
    assert(be32(vmsk_tag(), 0) == 0x766d736b);
    let st3 = BlockState { vector: Some(m), ..st2 };
    lemma_blocks_one(x, pos + l3, vmsk_tag(), m, st2, st3);
    assert(pos + l3 + l4 == x.len());
}


/// The importer's reading of a record's extra data.
#[verifier::rlimit(50)]
proof fn lemma_extra_read(layer: LayerHead, bounds: Bounds, blend: Seq<u8>)
    requires
        extra_bytes(layer).len() <= u32::MAX,
        utf16_units(layer.name@).len() <= 32768,
    ensures
        record_extra(extra_bytes(layer), bounds, blend) == Ok::<(Option<crate::import::psd::layers::Mask>, BlockState), Seq<char>>((None, BlockState {
            blend,
            ..written_blocks(layer)
        })),
{
    reveal(extra_bytes);
    let x = extra_bytes(layer);
    let name = layer.name@;
    let n = if name.len() < 255 { name.len() as int } else { 255int };
    let p = padded_name_bytes(name);
    assert(p.len() == 1 + n + pad4(n + 1));
    assert(x.subrange(0, 4) =~= be32_bytes(0));
    lemma_be32_at(x, 0, 0);
    assert(x.subrange(4, 8) =~= be32_bytes(0));
    lemma_be32_at(x, 4, 0);
    assert(x.subrange(4, 4) =~= Seq::<u8>::empty());
    assert(x.subrange(8, 8) =~= Seq::<u8>::empty());
    assert(stored_mask(Seq::<u8>::empty()) == Ok::<Option<crate::import::psd::layers::Mask>, Seq<char>>(None));
    assert(x[8] == n as u8);
    let start = 9 + n + pad4(n + 1);
    assert(x.subrange(start, x.len() as int) =~= tail_blocks(layer));
    let st0 = BlockState {
        name: x.subrange(9, 9 + n).map_values(|b: u8| crate::import::psd::mac_roman_char(b)),
        blend,
        group: 0,
        effects: false,
        fill_opacity: 255,
        vector: None,
        fill: None,
        style: None,
    };
    lemma_tail_blocks(x, start, layer, st0);
}


/// The channels the importer finds in a written record.
pub open spec fn written_channels(layer: LayerHead, depth: int) -> Seq<(int, int)> {
    let l = channel_length(layer.bounds, depth);
    if layer.shape is Some { seq![] } else { seq![(0int, l), (1int, l), (2int, l), (-1int, l)] }
}

/// The stored rectangle of a layer whose coordinates fit 31 bits.
pub open spec fn written_bounds(r: DirtyRect) -> Bounds {
    Bounds { top: r.min_y as i32, left: r.min_x as i32, bottom: r.max_y as i32, right: r.max_x as i32 }
}

/// What the importer reads from the record of `layer` at `depth` bits.
pub open spec fn written_view(layer: LayerHead, depth: int) -> RecordView {
    RecordView {
        bounds: written_bounds(layer.bounds),
        channels: written_channels(layer, depth),
        opacity: layer.opacity,
        clipping: false,
        visible: layer.visible,
        mask: None,
        blocks: written_blocks(layer),
    }
}

#[verifier::spinoff_prover]
#[verifier::rlimit(50)]
proof fn lemma_rect_read(s: Seq<u8>, p: int, r: DirtyRect)
    requires
        0 <= p,
        p + 16 <= s.len(),
        r.min_x <= i32::MAX, r.max_x <= i32::MAX, r.min_y <= i32::MAX, r.max_y <= i32::MAX,
        s.subrange(p, p + 16) == coord_bytes(r.min_y) + coord_bytes(r.min_x) + coord_bytes(r.max_y) + coord_bytes(r.max_x),
    ensures
        psd_bounds(s, p) == Ok::<(Bounds, int), Seq<char>>((written_bounds(r), p + 16)),
{
    let h = s.subrange(p, p + 16);
    assert(r.min_y as int % 0x1_0000_0000 == r.min_y);
    assert(r.min_x as int % 0x1_0000_0000 == r.min_x);
    assert(r.max_y as int % 0x1_0000_0000 == r.max_y);
    assert(r.max_x as int % 0x1_0000_0000 == r.max_x);
    assert(h.subrange(0, 4) =~= be32_bytes(r.min_y as int));
    assert(h.subrange(4, 8) =~= be32_bytes(r.min_x as int));
    assert(h.subrange(8, 12) =~= be32_bytes(r.max_y as int));
    assert(h.subrange(12, 16) =~= be32_bytes(r.max_x as int));
    lemma_sub_of_sub(s, p, p + 16, h, 0, 4);
    lemma_sub_of_sub(s, p, p + 16, h, 4, 8);
    lemma_sub_of_sub(s, p, p + 16, h, 8, 12);
    lemma_sub_of_sub(s, p, p + 16, h, 12, 16);
    lemma_be32_at(s, p, r.min_y as int);
    lemma_be32_at(s, p + 4, r.min_x as int);
    lemma_be32_at(s, p + 8, r.max_y as int);
    lemma_be32_at(s, p + 12, r.max_x as int);
}

#[verifier::spinoff_prover]
#[verifier::rlimit(50)]
proof fn lemma_channel_table_read(s: Seq<u8>, p: int, l: int)
    requires
        0 <= p,
        p + 24 <= s.len(),
        0 <= l <= u32::MAX,
        s.subrange(p, p + 24) == channel_table_bytes(l),
    ensures
        channel_table(s, p, 4, seq![]) == Ok::<(Seq<(int, int)>, int), Seq<char>>((seq![(0int, l), (1int, l), (2int, l), (-1int, l)], p + 24)),
{
    let t = channel_table_bytes(l);
    assert(t.subrange(0, 2) =~= be16_bytes(0));
    assert(t.subrange(2, 6) =~= be32_bytes(l));
    assert(t.subrange(6, 8) =~= be16_bytes(1));
    assert(t.subrange(8, 12) =~= be32_bytes(l));
    assert(t.subrange(12, 14) =~= be16_bytes(2));
    assert(t.subrange(14, 18) =~= be32_bytes(l));
    assert(t.subrange(18, 20) =~= be16_bytes(65535));
    assert(t.subrange(20, 24) =~= be32_bytes(l));
    lemma_sub_of_sub(s, p, p + 24, t, 0, 2);
    lemma_sub_of_sub(s, p, p + 24, t, 2, 6);
    lemma_sub_of_sub(s, p, p + 24, t, 6, 8);
    lemma_sub_of_sub(s, p, p + 24, t, 8, 12);
    lemma_sub_of_sub(s, p, p + 24, t, 12, 14);
    lemma_sub_of_sub(s, p, p + 24, t, 14, 18);
    lemma_sub_of_sub(s, p, p + 24, t, 18, 20);
    lemma_sub_of_sub(s, p, p + 24, t, 20, 24);
    lemma_be16_at(s, p, 0);
    lemma_be32_at(s, p + 2, l);
    lemma_be16_at(s, p + 6, 1);
    lemma_be32_at(s, p + 8, l);
    lemma_be16_at(s, p + 12, 2);
    lemma_be32_at(s, p + 14, l);
    lemma_be16_at(s, p + 18, 65535);
    lemma_be32_at(s, p + 20, l);
    assert(signed16(65535) == -1);
    let a1 = seq![(0int, l)];
    let a2 = a1.push((1int, l));
    let a3 = a2.push((2int, l));
    let a4 = a3.push((-1int, l));
    assert(Seq::<(int, int)>::empty().push((0int, l)) == a1);
    assert(channel_table(s, p + 24, 0, a4) == Ok::<(Seq<(int, int)>, int), Seq<char>>((a4, p + 24)));
    assert(channel_table(s, p + 18, 1, a3) == channel_table(s, p + 24, 0, a4));
    assert(channel_table(s, p + 12, 2, a2) == channel_table(s, p + 18, 1, a3));
    assert(channel_table(s, p + 6, 3, a1) == channel_table(s, p + 12, 2, a2));
    assert(channel_table(s, p, 4, seq![]) == channel_table(s, p + 6, 3, a1));
    assert(a4 =~= seq![(0int, l), (1int, l), (2int, l), (-1int, l)]);
}


proof fn lemma_flags_visible(visible: bool, shape: bool)
    ensures
        (flags_byte(visible, shape) & 2 == 0) == visible,
{
    let a: u8 = if visible { 0u8 } else { 2u8 };
    let b: u8 = if shape { 24u8 } else { 0u8 };
    assert(((a | b) & 2 == 0) == (a == 0)) by (bit_vector)
        requires a == 0 || a == 2, b == 0 || b == 24;
}

/// Where the fields of a written record lie.
#[verifier::spinoff_prover]
#[verifier::rlimit(50)]
proof fn lemma_record_layout(layer: LayerHead, depth: int)
    requires
        depth >= 0,
    ensures
        ({
            let rec = record_bytes(layer, depth);
            let r = layer.bounds;
            let shape = layer.shape is Some;
            let q: int = if shape { 18 } else { 42 };
            let e = extra_bytes(layer);
            &&& rec.len() == q + 16 + e.len()
            &&& rec.subrange(0, 16) == coord_bytes(r.min_y) + coord_bytes(r.min_x) + coord_bytes(r.max_y) + coord_bytes(r.max_x)
            &&& rec.subrange(16, 18) == be16_bytes(if shape { 0 } else { 4 })
            &&& (!shape ==> rec.subrange(18, 42) == channel_table_bytes(channel_length(r, depth)))
            &&& rec.subrange(q, q + 4) == signature_8bim()
            &&& rec.subrange(q + 4, q + 8) == blend_key(layer.mode)
            &&& rec[q + 8] == layer.opacity
            &&& rec[q + 9] == 0
            &&& rec[q + 10] == flags_byte(layer.visible, shape)
            &&& rec.subrange(q + 12, q + 16) == be32_bytes(e.len() as int)
            &&& rec.subrange(q + 16, q + 16 + e.len()) == e
        }),
{
    let r = layer.bounds;
    let shape = layer.shape is Some;
    let l = channel_length(r, depth);
    let h = record_head_bytes(r, shape, l);
    let e = extra_bytes(layer);
    lemma_record_bytes_split(layer, depth);
    let rec = record_bytes(layer, depth);
    let q = h.len() as int;
    assert(q == if shape { 18int } else { 42int });
    assert(rec.subrange(0, 16) =~= coord_bytes(r.min_y) + coord_bytes(r.min_x) + coord_bytes(r.max_y) + coord_bytes(r.max_x));
    assert(rec.subrange(16, 18) =~= be16_bytes(if shape { 0 } else { 4 }));
    if !shape {
        assert(rec.subrange(18, 42) =~= channel_table_bytes(l));
    }
    assert(rec.subrange(q, q + 4) =~= signature_8bim());
    assert(rec.subrange(q + 4, q + 8) =~= blend_key(layer.mode));
    assert(rec.subrange(q + 12, q + 16) =~= be32_bytes(e.len() as int));
    assert(rec.subrange(q + 16, q + 16 + e.len()) =~= e);
}

/// The importer's reading of the fixed part of a written record.
#[verifier::spinoff_prover]
#[verifier::rlimit(100)]
proof fn lemma_head_read(layer: LayerHead, depth: int, s: Seq<u8>, p: int)
    requires
        depth >= 0,
        record_error(layer, depth) is None,
        layer.bounds.min_x <= layer.bounds.max_x <= i32::MAX,
        layer.bounds.min_y <= layer.bounds.max_y <= i32::MAX,
        layer_size_ok(layer.bounds.spec_width(), layer.bounds.spec_height()),
        0 <= p,
        p + record_bytes(layer, depth).len() <= s.len(),
        s.subrange(p, p + record_bytes(layer, depth).len()) == record_bytes(layer, depth),
    ensures
        record_head(s, p) == Ok::<(Bounds, Seq<(int, int)>, Seq<u8>, u8, bool, u8, Seq<u8>, int), Seq<char>>((
            written_bounds(layer.bounds), written_channels(layer, depth), blend_key(layer.mode), layer.opacity, false,
            flags_byte(layer.visible, layer.shape is Some), extra_bytes(layer), p + record_bytes(layer, depth).len())),
{
    let r = layer.bounds;
    let shape = layer.shape is Some;
    let l = channel_length(r, depth);
    let e = extra_bytes(layer);
    let rec = record_bytes(layer, depth);
    lemma_record_layout(layer, depth);
    let n = rec.len() as int;
    let q: int = if shape { 18 } else { 42 };
    lemma_sub_of_sub(s, p, p + n, rec, 0, 16);
    lemma_rect_read(s, p, r);
    let cnt: int = if shape { 0 } else { 4 };
    lemma_sub_of_sub(s, p, p + n, rec, 16, 18);
    lemma_be16_at(s, p + 16, cnt);
    if !shape {
        let w = r.spec_width();
        let hh = r.spec_height();
        let b = sample_bytes(depth);
        assert(w * hh * b >= 0) by (nonlinear_arith) requires w >= 0, hh >= 0, b >= 0;
        lemma_sub_of_sub(s, p, p + n, rec, 18, 42);
        lemma_channel_table_read(s, p + 18, l);
    }
    lemma_sub_of_sub(s, p, p + n, rec, q, q + 4);
    lemma_sub_of_sub(s, p, p + n, rec, q + 4, q + 8);
    assert(s[p + q + 8] == s.subrange(p, p + n)[q + 8]);
    assert(s[p + q + 9] == s.subrange(p, p + n)[q + 9]);
    assert(s[p + q + 10] == s.subrange(p, p + n)[q + 10]);
    lemma_sub_of_sub(s, p, p + n, rec, q + 12, q + 16);
    lemma_be32_at(s, p + q + 12, e.len() as int);
    lemma_sub_of_sub(s, p, p + n, rec, q + 16, q + 16 + e.len());
}

/// A layer record written by [`write_record`] reads back, through the
/// importer's [`layer_record`], as the layer's rectangle, channel table,
/// opacity and visibility, with no mask, its blend mode, its full Unicode
/// name, and for a shape layer its fill and vector mask, wherever it stands
/// in the data; reading stops right after it.
pub proof fn lemma_record_round_trip(layer: LayerHead, depth: u16, s: Seq<u8>, pos: int)
    requires
        record_error(layer, depth as int) is None,
        layer.bounds.min_x <= layer.bounds.max_x <= i32::MAX,
        layer.bounds.min_y <= layer.bounds.max_y <= i32::MAX,
        layer_size_ok(layer.bounds.spec_width(), layer.bounds.spec_height()),
        utf16_units(layer.name@).len() <= 32768,
        0 <= pos,
        pos + record_bytes(layer, depth as int).len() <= s.len(),
        s.subrange(pos, pos + record_bytes(layer, depth as int).len()) == record_bytes(layer, depth as int),
    ensures
        layer_record(s, pos)
            == Ok::<(RecordView, int), Seq<char>>((written_view(layer, depth as int), pos + record_bytes(layer, depth as int).len())),
{
    lemma_head_read(layer, depth as int, s, pos);
    lemma_extra_read(layer, written_bounds(layer.bounds), blend_key(layer.mode));
    lemma_flags_visible(layer.visible, layer.shape is Some);
}



// ---------------------------------------------------------------------------
// Layer information: records, then planar channel data.

/// One sample at `depth` bits: a byte at 8 bits, else two big-endian bytes.
pub open spec fn sample_enc(v: u16, depth: int) -> Seq<u8> {
    if depth == 8 { seq![(v % 256) as u8] } else { be16_bytes(v as int) }
}

/// Channel `ch` of `pixels`, each sample encoded at `depth` bits.
pub open spec fn plane_samples(pixels: Seq<[u16; 4]>, ch: int, depth: int) -> Seq<u8>
    decreases pixels.len(),
{
    if pixels.len() == 0 {
        seq![]
    } else {
        plane_samples(pixels.drop_last(), ch, depth) + sample_enc(pixels.last()[ch], depth)
    }
}

/// A layer's four raw planes (red, green, blue, transparency), each after
/// its compression word.
pub open spec fn layer_data_bytes(pixels: Seq<[u16; 4]>, depth: int) -> Seq<u8> {
    be16_bytes(0) + plane_samples(pixels, 0, depth) + be16_bytes(0) + plane_samples(pixels, 1, depth)
        + be16_bytes(0) + plane_samples(pixels, 2, depth) + be16_bytes(0) + plane_samples(pixels, 3, depth)
}

/// The records of `layers`, in order.
pub open spec fn records_bytes(layers: Seq<LayerHead>, depth: int) -> Seq<u8>
    decreases layers.len(),
{
    if layers.len() == 0 {
        seq![]
    } else {
        records_bytes(layers.drop_last(), depth) + record_bytes(layers.last(), depth)
    }
}

/// The channel data of the pixel layers among `layers`, in order.
pub open spec fn channel_data_bytes(layers: Seq<LayerHead>, pixels: Seq<Vec<[u16; 4]>>, depth: int) -> Seq<u8>
    decreases layers.len(),
{
    if layers.len() == 0 || pixels.len() == 0 {
        seq![]
    } else {
        channel_data_bytes(layers.drop_last(), pixels.drop_last(), depth)
            + (if layers.last().shape is Some { seq![] } else { layer_data_bytes(pixels.last()@, depth) })
    }
}

/// The first refusal among the records of `layers`, if any.
pub open spec fn records_error(layers: Seq<LayerHead>, depth: int) -> Option<Seq<char>>
    decreases layers.len(),
{
    if layers.len() == 0 {
        None
    } else {
        match records_error(layers.drop_last(), depth) {
            Some(m) => Some(m),
            None => record_error(layers.last(), depth),
        }
    }
}

/// The layer information: the layer count, the records, the channel data,
/// and a zero byte when needed to reach an even length.
pub open spec fn info_bytes(layers: Seq<LayerHead>, pixels: Seq<Vec<[u16; 4]>>, depth: int) -> Seq<u8> {
    let body = be16_bytes(layers.len() as int % 0x1_0000) + records_bytes(layers, depth)
        + channel_data_bytes(layers, pixels, depth);
    body + zeros(body.len() as int % 2)
}

/// Append channel `ch` of `pixels`.
fn push_plane(out: &mut Vec<u8>, pixels: &[[u16; 4]], ch: usize, depth: u16)
    requires
        ch < 4,
    ensures
        final(out)@ == old(out)@ + plane_samples(pixels@, ch as int, depth as int),
{
    let mut i: usize = 0;
    while i < pixels.len()
        invariant
            i <= pixels@.len(),
            ch < 4,
            out@ == old(out)@ + plane_samples(pixels@.take(i as int), ch as int, depth as int),
        decreases pixels@.len() - i,
    {
        let v = pixels[i][ch];
        if depth == 8 {
            out.push((v % 256) as u8);
        } else {
            be_u16(out, v);
        }
        assert(pixels@.take(i + 1).drop_last() =~= pixels@.take(i as int));
        i += 1;
        assert(out@ =~= old(out)@ + plane_samples(pixels@.take(i as int), ch as int, depth as int));
    }
    assert(pixels@.take(pixels@.len() as int) =~= pixels@);
}

/// Append a layer's four raw planes.
fn push_layer_data(out: &mut Vec<u8>, pixels: &[[u16; 4]], depth: u16)
    ensures
        final(out)@ == old(out)@ + layer_data_bytes(pixels@, depth as int),
{
    be_u16(out, 0);
    push_plane(out, pixels, 0, depth);
    be_u16(out, 0);
    push_plane(out, pixels, 1, depth);
    be_u16(out, 0);
    push_plane(out, pixels, 2, depth);
    be_u16(out, 0);
    push_plane(out, pixels, 3, depth);
    assert(out@ =~= old(out)@ + layer_data_bytes(pixels@, depth as int));
}


proof fn lemma_records_error_prefix(layers: Seq<LayerHead>, k: int, depth: int)
    requires
        0 <= k <= layers.len(),
        records_error(layers.take(k), depth) is Some,
    ensures
        records_error(layers, depth) == records_error(layers.take(k), depth),
    decreases layers.len() - k,
{
    if k < layers.len() {
        assert(layers.take(k + 1).drop_last() =~= layers.take(k));
        lemma_records_error_prefix(layers, k + 1, depth);
    } else {
        assert(layers.take(k) =~= layers);
    }
}

/// Append the layer information of `layers`, the pixel layers among them
/// carrying the samples at the same index of `pixels`. On a refusal nothing
/// is appended.
pub fn write_info(out: &mut Vec<u8>, layers: &[LayerHead], pixels: &[Vec<[u16; 4]>], depth: u16) -> (res: Result<(), String>)
    requires
        layers@.len() == pixels@.len(),
    ensures
        match records_error(layers@, depth as int) {
            None => res is Ok && final(out)@ == old(out)@ + info_bytes(layers@, pixels@, depth as int),
            Some(m) => res matches Err(e) && e@ == m && final(out)@ == old(out)@,
        },
{
    let mut buf: Vec<u8> = Vec::new();
    be_u16(&mut buf, (layers.len() % 0x1_0000) as u16);
    let ghost count = buf@;
    let mut i: usize = 0;
    while i < layers.len()
        invariant
            i <= layers@.len(),
            buf@ == count + records_bytes(layers@.take(i as int), depth as int),
            records_error(layers@.take(i as int), depth as int) is None,
        decreases layers@.len() - i,
    {
        assert(layers@.take(i + 1).drop_last() =~= layers@.take(i as int));
        match write_record(&mut buf, &layers[i], depth) {
            Ok(()) => {},
            Err(e) => {
                proof { lemma_records_error_prefix(layers@, i + 1, depth as int); }
                return Err(e);
            },
        }
        i += 1;
        assert(buf@ =~= count + records_bytes(layers@.take(i as int), depth as int));
    }
    assert(layers@.take(layers@.len() as int) =~= layers@);
    let ghost recs = buf@;
    let mut j: usize = 0;
    while j < layers.len()
        invariant
            j <= layers@.len(),
            layers@.len() == pixels@.len(),
            buf@ == recs + channel_data_bytes(layers@.take(j as int), pixels@.take(j as int), depth as int),
        decreases layers@.len() - j,
    {
        assert(layers@.take(j + 1).drop_last() =~= layers@.take(j as int));
        assert(pixels@.take(j + 1).drop_last() =~= pixels@.take(j as int));
        if layers[j].shape.is_none() {
            push_layer_data(&mut buf, pixels[j].as_slice(), depth);
        }
        j += 1;
        assert(buf@ =~= recs + channel_data_bytes(layers@.take(j as int), pixels@.take(j as int), depth as int));
    }
    assert(pixels@.take(pixels@.len() as int) =~= pixels@);
    let ghost body = buf@;
    if buf.len() % 2 != 0 {
        buf.push(0);
    }
    assert(buf@ =~= body + zeros(body.len() as int % 2));
    assert(buf@ =~= info_bytes(layers@, pixels@, depth as int));
    out.append(&mut buf);
    Ok(())
}


// ---------------------------------------------------------------------------
// The layer-and-mask section and the merged image.

/// The 16-bit layer information tag, `Lr16`.
pub open spec fn lr16_tag() -> Seq<u8> {
    seq![0x4Cu8, 0x72u8, 0x31u8, 0x36u8]
}

/// The content of the layer-and-mask section holding `info`. At 8 bits the
/// layers are stored directly; at 16 bits the legacy layer information is
/// empty and the layers go in a global `Lr16` block padded to four bytes.
pub open spec fn section_body(info: Seq<u8>, depth: int) -> Seq<u8> {
    if depth == 8 {
        be32_bytes(info.len() as int) + info + be32_bytes(0)
    } else {
        be32_bytes(0) + be32_bytes(0) + signature_8bim() + lr16_tag()
            + be32_bytes(info.len() + pad4(info.len() as int)) + info + zeros(pad4(info.len() as int))
    }
}

/// The merged image's channel `ch`, each sample encoded at `depth` bits.
pub open spec fn merged_plane(pixels: Seq<[u16; 3]>, ch: int, depth: int) -> Seq<u8>
    decreases pixels.len(),
{
    if pixels.len() == 0 {
        seq![]
    } else {
        merged_plane(pixels.drop_last(), ch, depth) + sample_enc(pixels.last()[ch], depth)
    }
}

/// The merged image: a raw-compression word, then the red, green and blue
/// planes.
pub open spec fn merged_bytes(pixels: Seq<[u16; 3]>, depth: int) -> Seq<u8> {
    be16_bytes(0) + merged_plane(pixels, 0, depth) + merged_plane(pixels, 1, depth) + merged_plane(pixels, 2, depth)
}

/// The bytes one sample takes at `depth` bits.
pub open spec fn sample_width(depth: int) -> int {
    if depth == 8 { 1 } else { 2 }
}

/// Channel `ch` of the merged image holds the samples of that channel, pixel
/// after pixel: sample `i` is the `i`-th run of `sample_width(depth)` bytes.
proof fn lemma_merged_plane_samples(pixels: Seq<[u16; 3]>, ch: int, depth: int)
    requires
        0 <= ch < 3,
    ensures
        merged_plane(pixels, ch, depth).len() == pixels.len() * sample_width(depth),
        forall|i: int| 0 <= i < pixels.len() ==> merged_plane(pixels, ch, depth).subrange(
            i * sample_width(depth), i * sample_width(depth) + sample_width(depth)) == sample_enc((#[trigger] pixels[i])[ch], depth),
    decreases pixels.len(),
{
    let w = sample_width(depth);
    let n = pixels.len() as int;
    if n > 0 {
        let init = pixels.drop_last();
        lemma_merged_plane_samples(init, ch, depth);
        let m = merged_plane(pixels, ch, depth);
        let mi = merged_plane(init, ch, depth);
        assert(sample_enc(pixels.last()[ch], depth).len() == w);
        assert((n - 1) * w + w == n * w) by (nonlinear_arith);
        assert forall|i: int| 0 <= i < n implies m.subrange(i * w, i * w + w) == sample_enc((#[trigger] pixels[i])[ch], depth) by {
            assert(0 <= i * w) by (nonlinear_arith) requires 0 <= i, w == 1 || w == 2;
            if i < n - 1 {
                assert(i * w + w <= (n - 1) * w) by (nonlinear_arith) requires i < n - 1, w == 1 || w == 2;
                assert(init[i] == pixels[i]);
                assert(m.subrange(i * w, i * w + w) =~= mi.subrange(i * w, i * w + w));
            } else {
                assert(i * w == (n - 1) * w);
                assert(m.subrange(i * w, i * w + w) =~= sample_enc(pixels.last()[ch], depth));
            }
        }
    }
}

/// The merged image that ends a layered file is planar: after a compression
/// word of 0 come the red, then the green, then the blue plane, each with
/// the samples of every pixel in order, so that the sample of pixel `i` in
/// channel `c` lies at `2 + (c * n + i) * sample_width` of it, for `n`
/// merged pixels.
pub proof fn law_merged_image_is_planar(width: u32, height: u32, fixed_dpi: u32, depth: PsdBitDepth,
    resources: Seq<u8>, layers: Seq<LayerHead>, pixels: Seq<Vec<[u16; 4]>>, merged: Seq<[u16; 3]>)
    ensures
        ({
            let file = layered_psd_bytes(width, height, fixed_dpi, depth, resources, layers, pixels, merged);
            let bits = depth.spec_bits() as int;
            let w = sample_width(bits);
            let n = merged.len() as int;
            let tail = file.subrange(file.len() - (2 + 3 * (n * w)), file.len() as int);
            &&& 2 + 3 * (n * w) <= file.len()
            &&& tail[0] == 0 && tail[1] == 0
            &&& forall|c: int, i: int| 0 <= c < 3 && 0 <= i < n ==>
                tail.subrange(2 + (c * n + i) * w, 2 + (c * n + i) * w + w) == sample_enc(#[trigger] merged[i][c], bits)
        }),
{
    let file = layered_psd_bytes(width, height, fixed_dpi, depth, resources, layers, pixels, merged);
    let bits = depth.spec_bits() as int;
    let w = sample_width(bits);
    let n = merged.len() as int;
    let mb = merged_bytes(merged, bits);
    lemma_merged_plane_samples(merged, 0, bits);
    lemma_merged_plane_samples(merged, 1, bits);
    lemma_merged_plane_samples(merged, 2, bits);
    let p0 = merged_plane(merged, 0, bits);
    let p1 = merged_plane(merged, 1, bits);
    let p2 = merged_plane(merged, 2, bits);
    assert(mb.len() == 2 + 3 * (n * w));
    let tail = file.subrange(file.len() - (2 + 3 * (n * w)), file.len() as int);
    assert(tail =~= mb);
    assert forall|c: int, i: int| 0 <= c < 3 && 0 <= i < n implies
        tail.subrange(2 + (c * n + i) * w, 2 + (c * n + i) * w + w) == sample_enc(#[trigger] merged[i][c], bits) by {
        let p = merged_plane(merged, c, bits);
        assert((c * n + i) * w == c * (n * w) + i * w) by (nonlinear_arith);
        assert(0 <= i * w && i * w + w <= n * w) by (nonlinear_arith) requires 0 <= i < n, w == 1 || w == 2;
        assert(p.subrange(i * w, i * w + w) == sample_enc(merged[i][c], bits));
        if c == 0 {
            assert(tail.subrange(2 + (c * n + i) * w, 2 + (c * n + i) * w + w) =~= p0.subrange(i * w, i * w + w));
        } else if c == 1 {
            assert(tail.subrange(2 + (c * n + i) * w, 2 + (c * n + i) * w + w) =~= p1.subrange(i * w, i * w + w));
        } else {
            assert(tail.subrange(2 + (c * n + i) * w, 2 + (c * n + i) * w + w) =~= p2.subrange(i * w, i * w + w));
        }
    }
}

/// The section-size refusal.
pub open spec fn section_too_large() -> Seq<char> {
    "PSD section exceeds 4 GB; reduce document size or layer count"@
}

fn section_content(info: &[u8], depth: u16) -> (b: Vec<u8>)
    requires
        info@.len() <= 0xFFFF_FFF7,
    ensures
        b@ == section_body(info@, depth as int),
{
    let n = info.len();
    let mut body: Vec<u8> = Vec::new();
    if depth == 8 {
        be_u32(&mut body, n as u32);
        body.extend_from_slice(info);
        be_u32(&mut body, 0);
    } else {
        let pad = (4 - n % 4) % 4;
        be_u32(&mut body, 0);
        be_u32(&mut body, 0);
        body.push(0x38); body.push(0x42); body.push(0x49); body.push(0x4D);
        body.push(0x4C); body.push(0x72); body.push(0x31); body.push(0x36);
        be_u32(&mut body, (n + pad) as u32);
        body.extend_from_slice(info);
        push_zeros(&mut body, pad);
    }
    assert(body@ =~= section_body(info@, depth as int));
    body
}

/// Append the layer-and-mask section holding the layer information `info`.
/// On a refusal nothing is appended.
fn push_layer_section(out: &mut Vec<u8>, info: &[u8], depth: u16) -> (res: Result<(), String>)
    ensures
        section_body(info@, depth as int).len() <= u32::MAX ==> (res is Ok
            && final(out)@ == old(out)@ + be32_bytes(section_body(info@, depth as int).len() as int) + section_body(info@, depth as int)),
        section_body(info@, depth as int).len() > u32::MAX ==> (res matches Err(e) && e@ == section_too_large() && final(out)@ == old(out)@),
{
    let n = info.len();
    if n as u64 > 0xFFFF_FFF7 {
        return Err(String::from_str("PSD section exceeds 4 GB; reduce document size or layer count"));
    }
    let mut body = section_content(info, depth);
    if body.len() as u64 > 0xFFFF_FFFF {
        return Err(String::from_str("PSD section exceeds 4 GB; reduce document size or layer count"));
    }
    be_u32(out, body.len() as u32);
    out.append(&mut body);
    Ok(())
}

/// Append the merged image's channel `ch`.
fn push_merged_plane(out: &mut Vec<u8>, pixels: &[[u16; 3]], ch: usize, depth: u16)
    requires
        ch < 3,
    ensures
        final(out)@ == old(out)@ + merged_plane(pixels@, ch as int, depth as int),
{
    let mut i: usize = 0;
    while i < pixels.len()
        invariant
            i <= pixels@.len(),
            ch < 3,
            out@ == old(out)@ + merged_plane(pixels@.take(i as int), ch as int, depth as int),
        decreases pixels@.len() - i,
    {
        let v = pixels[i][ch];
        if depth == 8 {
            out.push((v % 256) as u8);
        } else {
            be_u16(out, v);
        }
        assert(pixels@.take(i + 1).drop_last() =~= pixels@.take(i as int));
        i += 1;
        assert(out@ =~= old(out)@ + merged_plane(pixels@.take(i as int), ch as int, depth as int));
    }
    assert(pixels@.take(pixels@.len() as int) =~= pixels@);
}

/// Append the merged image.
pub fn write_merged(out: &mut Vec<u8>, pixels: &[[u16; 3]], depth: u16)
    ensures
        final(out)@ == old(out)@ + merged_bytes(pixels@, depth as int),
{
    be_u16(out, 0);
    push_merged_plane(out, pixels, 0, depth);
    push_merged_plane(out, pixels, 1, depth);
    push_merged_plane(out, pixels, 2, depth);
    assert(out@ =~= old(out)@ + merged_bytes(pixels@, depth as int));
}


// ---------------------------------------------------------------------------
// Layered files.

/// The image resources of a file, with the native project appended when one
/// is embedded.
pub open spec fn with_project(resources: Seq<u8>, project: Option<Seq<u8>>) -> Seq<u8> {
    match project {
        Some(p) => resources + resource_bytes(4000, "GraphiteStudio.Project.v1"@, p),
        None => resources,
    }
}

/// The refusal of a layered file, if any, in the order the writer meets it.
pub open spec fn layered_psd_error(width: u32, height: u32, depth: PsdBitDepth, resources: Seq<u8>,
    drawing_layers: usize, layers: Seq<LayerHead>, pixels: Seq<Vec<[u16; 4]>>) -> Option<Seq<char>>
{
    let bits = depth.spec_bits() as int;
    if drawing_layers >= 32767 {
        Some("PSD supports at most 32766 drawing layers plus paper"@)
    } else {
        match psd_header_error(width as int, height as int, bits, resources.len() as int) {
            Some(m) => Some(m),
            None => match records_error(layers, bits) {
                Some(m) => Some(m),
                None => if section_body(info_bytes(layers, pixels, bits), bits).len() > u32::MAX {
                    Some(section_too_large())
                } else {
                    None
                },
            },
        }
    }
}

/// A layered file: the header and image resources, the layer-and-mask
/// section in place of the header's empty one, and the merged image.
pub open spec fn layered_psd_bytes(width: u32, height: u32, fixed_dpi: u32, depth: PsdBitDepth, resources: Seq<u8>,
    layers: Seq<LayerHead>, pixels: Seq<Vec<[u16; 4]>>, merged: Seq<[u16; 3]>) -> Seq<u8>
{
    let bits = depth.spec_bits() as int;
    let header = psd_header_bytes(width as int, height as int, fixed_dpi as int, bits, resources);
    let section = section_body(info_bytes(layers, pixels, bits), bits);
    header.subrange(0, header.len() - 4) + be32_bytes(section.len() as int) + section + merged_bytes(merged, bits)
}

/// Append a layered PSD file: `width` × `height` pixels at resolution
/// `fixed_dpi` (16.16 fixed point), image resources `resources` followed by
/// the native `project` when given, the layer records `layers` (bottom to
/// top, the pixel layers carrying the samples at the same index of
/// `pixels`), and the merged image `merged`. `drawing_layers` is the number
/// of the document's drawing layers. On a refusal nothing is appended.
pub fn write_layered_psd(out: &mut Vec<u8>, width: u32, height: u32, fixed_dpi: u32, depth: PsdBitDepth,
    resources: &[u8], project: Option<&[u8]>, drawing_layers: usize, layers: &[LayerHead],
    pixels: &[Vec<[u16; 4]>], merged: &[[u16; 3]]) -> (res: Result<(), String>)
    requires
        layers@.len() == pixels@.len(),
    ensures
        match layered_psd_error(width, height, depth, with_project(resources@, opt_bytes(project)), drawing_layers, layers@, pixels@) {
            None => res is Ok && final(out)@ == old(out)@ + layered_psd_bytes(width, height, fixed_dpi, depth,
                with_project(resources@, opt_bytes(project)), layers@, pixels@, merged@),
            Some(m) => res matches Err(e) && e@ == m && final(out)@ == old(out)@,
        },
{
    if drawing_layers >= 32767 {
        return Err(String::from_str("PSD supports at most 32766 drawing layers plus paper"));
    }
    let bits = depth.bits();
    let mut all = vstd::slice::slice_to_vec(resources);
    match project {
        Some(p) => resource(&mut all, 4000, "GraphiteStudio.Project.v1", p),
        None => {},
    }
    assert(all@ == with_project(resources@, opt_bytes(project)));
    let mut buf: Vec<u8> = Vec::new();
    match write_psd_header_with_resources(&mut buf, width, height, fixed_dpi, bits, all.as_slice()) {
        Ok(()) => {},
        Err(e) => return Err(e),
    }
    let ghost header = buf@;
    buf.truncate(buf.len() - 4);
    let mut info: Vec<u8> = Vec::new();
    match write_info(&mut info, layers, pixels, bits) {
        Ok(()) => {},
        Err(e) => return Err(e),
    }
    match push_layer_section(&mut buf, info.as_slice(), bits) {
        Ok(()) => {},
        Err(e) => return Err(e),
    }
    write_merged(&mut buf, merged, bits);
    assert(buf@ =~= layered_psd_bytes(width, height, fixed_dpi, depth, all@, layers@, pixels@, merged@));
    out.append(&mut buf);
    Ok(())
}


// ---------------------------------------------------------------------------
// Layer lists.

/// Whether pixel `(x, y)` of the row-major `w`-wide grid `g` is occupied.
pub open spec fn occupied(g: Seq<bool>, w: int, x: int, y: int) -> bool {
    g[y * w + x]
}

pub open spec fn in_grid(w: int, h: int, x: int, y: int) -> bool {
    0 <= x < w && 0 <= y < h
}

/// Whether any pixel of the `w` × `h` grid `g` is occupied.
pub open spec fn any_occupied(g: Seq<bool>, w: int, h: int) -> bool {
    exists|x: int, y: int| in_grid(w, h, x, y) && #[trigger] occupied(g, w, x, y)
}

/// Whether `r` is the smallest rectangle holding every occupied pixel: it
/// holds them all, and an occupied pixel touches each of its four sides.
pub open spec fn tightly_encloses(r: DirtyRect, g: Seq<bool>, w: int, h: int) -> bool {
    &&& forall|x: int, y: int| in_grid(w, h, x, y) && #[trigger] occupied(g, w, x, y) ==> r.contains(x, y)
    &&& exists|x: int, y: int| in_grid(w, h, x, y) && #[trigger] occupied(g, w, x, y) && x == r.min_x
    &&& exists|x: int, y: int| in_grid(w, h, x, y) && #[trigger] occupied(g, w, x, y) && x + 1 == r.max_x
    &&& exists|x: int, y: int| in_grid(w, h, x, y) && #[trigger] occupied(g, w, x, y) && y == r.min_y
    &&& exists|x: int, y: int| in_grid(w, h, x, y) && #[trigger] occupied(g, w, x, y) && y + 1 == r.max_y
}

proof fn lemma_grid_index(w: int, h: int, x: int, y: int)
    requires
        in_grid(w, h, x, y),
    ensures
        0 <= y * w + x < w * h,
{
    assert(0 <= y * w + x < w * h) by (nonlinear_arith) requires 0 <= x < w, 0 <= y < h;
}

proof fn lemma_next_row(w: int, h: int, y: int)
    requires
        0 <= w,
        0 <= y < h,
    ensures
        (y + 1) * w <= w * h,
        (y + 1) * w == y * w + w,
{
    assert((y + 1) * w <= w * h) by (nonlinear_arith) requires 0 <= w, 0 <= y < h;
    assert((y + 1) * w == y * w + w) by (nonlinear_arith);
}

/// The rectangle of a layer's occupied pixels: the smallest one holding
/// them all, or the single pixel at the origin when none is occupied.
/// `cells` holds one flag per pixel of the `width` × `height` canvas, row
/// after row.
pub fn occupied_bounds(width: usize, height: usize, cells: &[bool]) -> (r: DirtyRect)
    requires
        cells@.len() == width * height,
    ensures
        any_occupied(cells@, width as int, height as int) ==> tightly_encloses(r, cells@, width as int, height as int),
        !any_occupied(cells@, width as int, height as int) ==> r == (DirtyRect { min_x: 0, min_y: 0, max_x: 1, max_y: 1 }),
{
    let ghost g = cells@;
    let total = cells.len();
    let ghost w = width as int;
    let ghost h = height as int;
    let mut rect = DirtyRect::new(width, height, 0, 0);
    let ghost mut found = false;
    let ghost mut ax: (int, int) = (0, 0);
    let ghost mut bx: (int, int) = (0, 0);
    let ghost mut ay: (int, int) = (0, 0);
    let ghost mut by: (int, int) = (0, 0);
    let mut y: usize = 0;
    let mut row: usize = 0;
    while y < height
        invariant
            g == cells@,
            g.len() == w * h,
            total == g.len(),
            w == width, h == height,
            y <= height,
            row == y * w,
            found <==> exists|x: int, yy: int| in_grid(w, h, x, yy) && yy < y && #[trigger] occupied(g, w, x, yy),
            !found ==> rect == (DirtyRect { min_x: width, min_y: height, max_x: 0, max_y: 0 }),
            forall|x: int, yy: int| in_grid(w, h, x, yy) && yy < y && #[trigger] occupied(g, w, x, yy) ==> rect.contains(x, yy),
            found ==> in_grid(w, h, ax.0, ax.1) && occupied(g, w, ax.0, ax.1) && ax.0 == rect.min_x,
            found ==> in_grid(w, h, bx.0, bx.1) && occupied(g, w, bx.0, bx.1) && bx.0 + 1 == rect.max_x,
            found ==> in_grid(w, h, ay.0, ay.1) && occupied(g, w, ay.0, ay.1) && ay.1 == rect.min_y,
            found ==> in_grid(w, h, by.0, by.1) && occupied(g, w, by.0, by.1) && by.1 + 1 == rect.max_y,
        decreases height - y,
    {
        let mut x: usize = 0;
        while x < width
            invariant
                g == cells@,
                g.len() == w * h,
                total == g.len(),
                w == width, h == height,
                y < height,
                x <= width,
                row == y * w,
                found <==> exists|xx: int, yy: int| in_grid(w, h, xx, yy) && (yy < y || (yy == y && xx < x)) && #[trigger] occupied(g, w, xx, yy),
                !found ==> rect == (DirtyRect { min_x: width, min_y: height, max_x: 0, max_y: 0 }),
                forall|xx: int, yy: int| in_grid(w, h, xx, yy) && (yy < y || (yy == y && xx < x)) && #[trigger] occupied(g, w, xx, yy) ==> rect.contains(xx, yy),
                found ==> in_grid(w, h, ax.0, ax.1) && occupied(g, w, ax.0, ax.1) && ax.0 == rect.min_x,
                found ==> in_grid(w, h, bx.0, bx.1) && occupied(g, w, bx.0, bx.1) && bx.0 + 1 == rect.max_x,
                found ==> in_grid(w, h, ay.0, ay.1) && occupied(g, w, ay.0, ay.1) && ay.1 == rect.min_y,
                found ==> in_grid(w, h, by.0, by.1) && occupied(g, w, by.0, by.1) && by.1 + 1 == rect.max_y,
            decreases width - x,
        {
            proof { lemma_grid_index(w, h, x as int, y as int); }
            if cells[row + x] {
                let ghost p = (x as int, y as int);
                let ghost before = rect;
                assert(occupied(g, w, p.0, p.1));
                if x < rect.min_x { rect.min_x = x; }
                if y < rect.min_y { rect.min_y = y; }
                if x + 1 > rect.max_x { rect.max_x = x + 1; }
                if y + 1 > rect.max_y { rect.max_y = y + 1; }
                proof {
                    if !found || p.0 < before.min_x { ax = p; }
                    if !found || p.0 + 1 > before.max_x { bx = p; }
                    if !found || p.1 < before.min_y { ay = p; }
                    if !found || p.1 + 1 > before.max_y { by = p; }
                    found = true;
                }
            }
            x += 1;
        }
        proof { lemma_next_row(w, h, y as int); }
        row += width;
        y += 1;
    }
    if rect.is_empty() {
        DirtyRect::new(0, 0, 1, 1)
    } else {
        rect
    }
}


/// The record of the paper, the bottom layer of a layered file: the whole
/// `width` × `height` canvas, opaque, visible and normal.
pub fn paper_layer(width: usize, height: usize) -> (l: LayerHead)
    ensures
        l.opacity == 255,
        l.bounds == (DirtyRect { min_x: 0, min_y: 0, max_x: width, max_y: height }),
        l.name@ == "Paper"@,
        l.visible,
        l.mode == BlendMode::Normal,
        l.id == 0,
        l.shape is None,
{
    LayerHead {
        opacity: 255,
        bounds: DirtyRect::full(width, height),
        name: String::from_str("Paper"),
        visible: true,
        mode: BlendMode::Normal,
        id: 0,
        shape: None,
    }
}

/// The name of the `number`-th shape alternative of layer `layer_name`,
/// made with a stroke labelled `label`.
pub open spec fn vector_name(layer_name: Seq<char>, number: nat, label: Seq<char>) -> Seq<char> {
    "Vector - "@ + layer_name + " - "@ + decimal(number) + " "@ + label
}

/// The name of the `number`-th shape alternative of layer `layer_name`.
pub fn vector_layer_name(layer_name: &str, number: u64, label: &str) -> (s: String)
    ensures
        s@ == vector_name(layer_name@, number as nat, label@),
{
    let mut out = str_chars("Vector - ");
    out.append(&mut str_chars(layer_name));
    out.append(&mut str_chars(" - "));
    push_decimal(&mut out, number);
    out.append(&mut str_chars(" "));
    out.append(&mut str_chars(label));
    assert(out@ =~= vector_name(layer_name@, number as nat, label@));
    string_from_chars(out.as_slice())
}

/// The most records a layered file holds before its shape alternatives stop.
pub open spec fn max_records() -> int {
    32766
}

/// Add the hidden shape alternative `shape` of a drawing layer, named
/// `name`, with `opacity` and the layer's blend `mode`; its id follows the
/// records already listed. A full list is refused and left unchanged.
pub fn push_shape_layer(layers: &mut Vec<LayerHead>, opacity: u8, name: String, mode: BlendMode, shape: LayerShape)
    -> (res: Result<(), String>)
    ensures
        old(layers)@.len() >= max_records() ==> (res matches Err(e) && e@ == "Too many native shape layers for PSD"@
            && final(layers)@ == old(layers)@),
        old(layers)@.len() < max_records() ==> (res is Ok && final(layers)@ == old(layers)@.push(LayerHead {
            opacity,
            bounds: DirtyRect { min_x: 0, min_y: 0, max_x: 0, max_y: 0 },
            name,
            visible: false,
            mode,
            id: (0x4000_0000 + old(layers)@.len()) as u32,
            shape: Some(shape),
        })),
{
    if layers.len() >= 32766 {
        return Err(String::from_str("Too many native shape layers for PSD"));
    }
    let id = 0x4000_0000 + layers.len() as u32;
    layers.push(LayerHead {
        opacity,
        bounds: DirtyRect::new(0, 0, 0, 0),
        name,
        visible: false,
        mode,
        id,
        shape: Some(shape),
    });
    Ok(())
}


/// The importer maps the key the exporter writes for a blend mode back to
/// that mode.
pub proof fn lemma_blend_key_round_trip(mode: BlendMode)
    ensures
        key_blend(blend_key(mode)) == Some(mode),
{
    match mode {
        BlendMode::Normal => {},
        BlendMode::Multiply => {
            assert(blend_key(mode) != seq![0x6Eu8, 0x6Fu8, 0x72u8, 0x6Du8]) by { assert(blend_key(mode)[0] != 0x6Eu8); }
        },
        BlendMode::Darken => {
            assert(blend_key(mode)[0] == 0x64u8);
        },
        BlendMode::Screen => {
            assert(blend_key(mode)[0] == 0x73u8 && blend_key(mode)[1] == 0x63u8);
        },
        BlendMode::Lighten => {
            assert(blend_key(mode)[0] == 0x6Cu8);
        },
        BlendMode::Saturation => {
            assert(blend_key(mode)[0] == 0x73u8 && blend_key(mode)[1] == 0x61u8);
        },
    }
}


/// Whether the importer can read `layer`'s record back exactly: the corners
/// of its rectangle fit 31 bits, its samples fit memory, and its name is
/// within the importer's length limit.
pub open spec fn reads_back(layer: LayerHead) -> bool {
    &&& layer.bounds.min_x <= layer.bounds.max_x <= i32::MAX
    &&& layer.bounds.min_y <= layer.bounds.max_y <= i32::MAX
    &&& layer_size_ok(layer.bounds.spec_width(), layer.bounds.spec_height())
    &&& utf16_units(layer.name@).len() <= 32768
}

/// What the importer reads from the records of `layers`.
pub open spec fn written_views(layers: Seq<LayerHead>, depth: int) -> Seq<RecordView> {
    layers.map_values(|l: LayerHead| written_view(l, depth))
}

proof fn lemma_records_error_each(layers: Seq<LayerHead>, depth: int)
    requires
        records_error(layers, depth) is None,
    ensures
        forall|i: int| 0 <= i < layers.len() ==> record_error(#[trigger] layers[i], depth) is None,
    decreases layers.len(),
{
    if layers.len() > 0 {
        lemma_records_error_each(layers.drop_last(), depth);
        assert forall|i: int| 0 <= i < layers.len() implies record_error(#[trigger] layers[i], depth) is None by {
            if i < layers.len() - 1 {
                assert(layers.drop_last()[i] == layers[i]);
            }
        }
    }
}

proof fn lemma_records_prefix(layers: Seq<LayerHead>, k: int, depth: int)
    requires
        0 <= k <= layers.len(),
    ensures
        records_bytes(layers.take(k), depth).len() <= records_bytes(layers, depth).len(),
        records_bytes(layers, depth).subrange(0, records_bytes(layers.take(k), depth).len() as int) == records_bytes(layers.take(k), depth),
    decreases layers.len(),
{
    if k == layers.len() {
        assert(layers.take(k) =~= layers);
    } else {
        let d = layers.drop_last();
        assert(layers.take(k) =~= d.take(k));
        lemma_records_prefix(d, k, depth);
        let a = records_bytes(d, depth);
        let x = records_bytes(d.take(k), depth).len() as int;
        assert(records_bytes(layers, depth) == a + record_bytes(layers.last(), depth));
        assert((a + record_bytes(layers.last(), depth)).subrange(0, x) =~= a.subrange(0, x));
    }
}

proof fn lemma_records_read(layers: Seq<LayerHead>, depth: u16, s: Seq<u8>, k: int)
    requires
        0 <= k <= layers.len(),
        2 + records_bytes(layers, depth as int).len() <= s.len(),
        s.subrange(2, 2 + records_bytes(layers, depth as int).len() as int) == records_bytes(layers, depth as int),
        forall|i: int| 0 <= i < layers.len() ==> record_error(#[trigger] layers[i], depth as int) is None,
        forall|i: int| 0 <= i < layers.len() ==> reads_back(#[trigger] layers[i]),
    ensures
        layer_records(s, 2 + records_bytes(layers.take(k), depth as int).len() as int, (layers.len() - k) as nat,
            written_views(layers.take(k), depth as int))
            == Ok::<(Seq<RecordView>, int), Seq<char>>((written_views(layers, depth as int), 2 + records_bytes(layers, depth as int).len() as int)),
    decreases layers.len() - k,
{
    let d = depth as int;
    if k == layers.len() {
        assert(layers.take(k) =~= layers);
    } else {
        let r = records_bytes(layers, d);
        let a = records_bytes(layers.take(k), d).len() as int;
        let rk = record_bytes(layers[k], d);
        assert(layers.take(k + 1).drop_last() =~= layers.take(k));
        assert(records_bytes(layers.take(k + 1), d) == records_bytes(layers.take(k), d) + rk);
        lemma_records_prefix(layers, k + 1, d);
        let b = a + rk.len();
        assert(r.subrange(0, b).subrange(a, b) =~= rk);
        assert(r.subrange(a, b) =~= r.subrange(0, b).subrange(a, b));
        lemma_sub_of_sub(s, 2, 2 + r.len() as int, r, a, b);
        let l = layers[k];
        lemma_record_round_trip(l, depth, s, 2 + a);
        lemma_records_read(layers, depth, s, k + 1);
        assert(written_views(layers.take(k + 1), d) =~= written_views(layers.take(k), d).push(written_view(l, d)));
    }
}

/// The layer information written by [`write_info`] reads back, through the
/// importer's [`read_records`](crate::import::psd::layers::read_records),
/// as the records of all its layers in order, the channel data starting
/// right after them.
#[verifier::spinoff_prover]
#[verifier::rlimit(40)]
pub proof fn lemma_info_round_trip(layers: Seq<LayerHead>, pixels: Seq<Vec<[u16; 4]>>, depth: u16)
    requires
        records_error(layers, depth as int) is None,
        layers.len() < 0x8000,
        forall|i: int| 0 <= i < layers.len() ==> reads_back(#[trigger] layers[i]),
    ensures
        layer_info_records(info_bytes(layers, pixels, depth as int))
            == Ok::<(Seq<RecordView>, int), Seq<char>>((written_views(layers, depth as int), 2 + records_bytes(layers, depth as int).len() as int)),
{
    let d = depth as int;
    let s = info_bytes(layers, pixels, d);
    let r = records_bytes(layers, d);
    let n = layers.len() as int;
    lemma_records_error_each(layers, d);
    assert(n % 0x1_0000 == n);
    assert(s.subrange(0, 2) =~= be16_bytes(n));
    lemma_be16_at(s, 0, n);
    assert(record_count(be16(s, 0)) == n);
    assert(s.subrange(2, 2 + r.len() as int) =~= r);
    assert(layers.take(0) =~= Seq::<LayerHead>::empty());
    assert(records_bytes(layers.take(0), d).len() == 0);
    assert(written_views(layers.take(0), d) =~= Seq::<RecordView>::empty());
    lemma_records_read(layers, depth, s, 0);
}

} // verus!
