//! PSD layer records: bounds, channel tables, masks, names and tagged blocks.
use vstd::prelude::*;
use crate::drawing::brush::{avail, be16, be32, signed32};
use super::{Cursor, psd_take_error, psd_section, psd_u16s, mac_roman_char, psd_channels, row_bytes, decode_channels};
use crate::drawing::brush::{utf16_lossy, signature_8bim, decode_utf16_lossy};
use super::{mac_roman, psd_read_lengths, lemma_psd_u16s_len, lemma_psd_u16s_range};
use crate::drawing::document::BlendMode;

verus! {

/// A layer or mask rectangle as stored: top, left, bottom, right.
#[derive(Debug, Clone, Copy, PartialEq, Eq, Structural)]
pub struct Bounds {
    pub top: i32,
    pub left: i32,
    pub bottom: i32,
    pub right: i32,
}

/// Whether a `w` × `h` layer is well formed and its floating-point RGBA
/// samples fit in `isize::MAX` bytes.
pub open spec fn layer_size_ok(w: int, h: int) -> bool {
    w >= 0 && h >= 0 && w * h * 16 <= isize::MAX
}

/// The four signed bounds stored at `pos`, and the position after them.
pub open spec fn psd_bounds(s: Seq<u8>, pos: int) -> Result<(Bounds, int), Seq<char>> {
    if !avail(s, pos, 4) {
        Err(psd_take_error(pos, 4))
    } else if !avail(s, pos + 4, 4) {
        Err(psd_take_error(pos + 4, 4))
    } else if !avail(s, pos + 8, 4) {
        Err(psd_take_error(pos + 8, 4))
    } else if !avail(s, pos + 12, 4) {
        Err(psd_take_error(pos + 12, 4))
    } else {
        Ok((Bounds {
            top: signed32(be32(s, pos)) as i32,
            left: signed32(be32(s, pos + 4)) as i32,
            bottom: signed32(be32(s, pos + 8)) as i32,
            right: signed32(be32(s, pos + 12)) as i32,
        }, pos + 16))
    }
}

/// Read a signed 32-bit value.
pub(crate) fn read_i32(r: &mut Cursor<'_>) -> (res: Result<i32, String>)
    requires
        old(r).wf(),
    ensures
        final(r).wf(),
        final(r).data@ == old(r).data@,
        avail(old(r).data@, old(r).pos as int, 4) ==> {
            &&& res matches Ok(v)
            &&& v == signed32(be32(old(r).data@, old(r).pos as int))
            &&& final(r).pos == old(r).pos + 4
        },
        !avail(old(r).data@, old(r).pos as int, 4) ==> {
            &&& res matches Err(e)
            &&& e@ == psd_take_error(old(r).pos as int, 4)
        },
{
    let u = r.u32()?;
    let v: i32 = if u >= 0x8000_0000 { (u - 0x8000_0000) as i32 - 0x4000_0000 - 0x4000_0000 } else { u as i32 };
    Ok(v)
}

impl Bounds {
    pub open spec fn spec_width(self) -> int {
        self.right - self.left
    }

    pub open spec fn spec_height(self) -> int {
        self.bottom - self.top
    }

    /// Read top, left, bottom and right.
    pub fn read(r: &mut Cursor<'_>) -> (res: Result<Self, String>)
        requires
            old(r).wf(),
        ensures
            final(r).wf(),
            final(r).data@ == old(r).data@,
            match psd_bounds(old(r).data@, old(r).pos as int) {
                Ok((b, next)) => res matches Ok(v) && v == b && final(r).pos == next,
                Err(e) => res matches Err(x) && x@ == e,
            },
    {
        let top = read_i32(r)?;
        let left = read_i32(r)?;
        let bottom = read_i32(r)?;
        let right = read_i32(r)?;
        Ok(Bounds { top, left, bottom, right })
    }

    /// Width and height, refusing inverted or unrepresentable rectangles.
    pub fn size(self) -> (res: Result<(usize, usize), String>)
        ensures
            layer_size_ok(self.spec_width(), self.spec_height()) ==> (res matches Ok((w, h))
                && w == self.spec_width() && h == self.spec_height()),
            !layer_size_ok(self.spec_width(), self.spec_height()) ==> (res matches Err(e)
                && e@ == "Invalid or overflowing PSD layer dimensions."@),
    {
        let w = self.right as i64 - self.left as i64;
        let h = self.bottom as i64 - self.top as i64;
        if w < 0 || h < 0 {
            return Err(String::from_str("Invalid or overflowing PSD layer dimensions."));
        }
        let limit: i64 = isize::MAX as i64;
        let fits = match w.checked_mul(h) {
            Some(n) => match n.checked_mul(16) {
                Some(bytes) => bytes <= limit,
                None => false,
            },
            None => false,
        };
        if !fits {
            return Err(String::from_str("Invalid or overflowing PSD layer dimensions."));
        }
        proof {
            assert(w * h * 16 <= isize::MAX);
            assert(w <= w * h * 16 || h == 0) by (nonlinear_arith)
                requires w >= 0, h >= 0;
            assert(h <= w * h * 16 || w == 0) by (nonlinear_arith)
                requires w >= 0, h >= 0;
        }
        Ok((w as usize, h as usize))
    }
}


// ---------------------------------------------------------------------------
// Layer records.

/// A layer's user mask as stored.
#[derive(Debug, Clone, Copy, PartialEq, Eq, Structural)]
pub struct Mask {
    pub bounds: Bounds,
    pub background: u8,
    pub flags: u8,
    /// Mask density as a byte; 255 is full density.
    pub density: u8,
}

/// The per-record tagged-block facts the importer uses.
pub struct BlockState {
    pub name: Seq<char>,
    pub blend: Seq<u8>,
    pub group: int,
    pub effects: bool,
    pub fill_opacity: u8,
    pub vector: Option<Seq<u8>>,
    pub fill: Option<Seq<u8>>,
    pub style: Option<Seq<u8>>,
}

/// The mathematical content of a [`LayerRecord`].
pub struct RecordView {
    pub bounds: Bounds,
    pub channels: Seq<(int, int)>,
    pub opacity: u8,
    pub clipping: bool,
    pub visible: bool,
    pub mask: Option<Mask>,
    pub blocks: BlockState,
}

/// The two's-complement reading of a 16-bit pattern.
pub open spec fn signed16(u: int) -> int {
    if u >= 0x8000 { u - 0x1_0000 } else { u }
}

/// `acc` followed by the `count` (channel id, data length) pairs at `pos`.
pub open spec fn channel_table(s: Seq<u8>, pos: int, count: nat, acc: Seq<(int, int)>) -> Result<(Seq<(int, int)>, int), Seq<char>>
    decreases count,
{
    if count == 0 {
        Ok((acc, pos))
    } else if !avail(s, pos, 2) {
        Err(psd_take_error(pos, 2))
    } else if !avail(s, pos + 2, 4) {
        Err(psd_take_error(pos + 2, 4))
    } else {
        channel_table(s, pos + 6, (count - 1) as nat, acc.push((signed16(be16(s, pos)), be32(s, pos + 2))))
    }
}

/// The fixed part of the layer record at `pos`: bounds, channels, blend key,
/// opacity, clipping, flags, the extra-data section and the position after it.
pub open spec fn record_head(s: Seq<u8>, pos: int) -> Result<(Bounds, Seq<(int, int)>, Seq<u8>, u8, bool, u8, Seq<u8>, int), Seq<char>> {
    match psd_bounds(s, pos) {
        Err(e) => Err(e),
        Ok((bounds, p)) => if !layer_size_ok(bounds.spec_width(), bounds.spec_height()) {
            Err("Invalid or overflowing PSD layer dimensions."@)
        } else if !avail(s, p, 2) {
            Err(psd_take_error(p, 2))
        } else if be16(s, p) > 56 {
            Err("Too many PSD layer channels."@)
        } else {
            match channel_table(s, p + 2, be16(s, p) as nat, seq![]) {
                Err(e) => Err(e),
                Ok((channels, q)) => if !avail(s, q, 4) {
                    Err(psd_take_error(q, 4))
                } else if s.subrange(q, q + 4) != signature_8bim() {
                    Err("Invalid PSD layer signature."@)
                } else if !avail(s, q + 4, 4) {
                    Err(psd_take_error(q + 4, 4))
                } else if !avail(s, q + 8, 1) {
                    Err(psd_take_error(q + 8, 1))
                } else if !avail(s, q + 9, 1) {
                    Err(psd_take_error(q + 9, 1))
                } else if !avail(s, q + 10, 1) {
                    Err(psd_take_error(q + 10, 1))
                } else if !avail(s, q + 11, 1) {
                    Err(psd_take_error(q + 11, 1))
                } else {
                    match psd_section(s, q + 12) {
                        Err(e) => Err(e),
                        Ok((extra, next)) => Ok((bounds, channels, s.subrange(q + 4, q + 8), s[q + 8],
                            s[q + 9] != 0, s[q + 10], extra, next)),
                    }
                },
            }
        },
    }
}

/// The user mask stored in `m`, before any position adjustment.
pub open spec fn stored_mask(m: Seq<u8>) -> Result<Option<Mask>, Seq<char>> {
    if m.len() == 0 {
        Ok(None)
    } else {
        match psd_bounds(m, 0) {
            Err(e) => Err(e),
            Ok((b, _)) => if !avail(m, 16, 1) {
                Err(psd_take_error(16, 1))
            } else if !avail(m, 17, 1) {
                Err(psd_take_error(17, 1))
            } else if m[17] & 16 == 0 {
                Ok(Some(Mask { bounds: b, background: m[16], flags: m[17], density: 255 }))
            } else if !avail(m, 18, 1) {
                Err(psd_take_error(18, 1))
            } else if m[18] & 1 != 0 && !avail(m, 19, 1) {
                Err(psd_take_error(19, 1))
            } else {
                let density = if m[18] & 1 != 0 { m[19] } else { 255u8 };
                let p = if m[18] & 1 != 0 { 20int } else { 19int };
                if m[18] & 2 == 0 {
                    Ok(Some(Mask { bounds: b, background: m[16], flags: m[17], density }))
                } else if !avail(m, p, 8) {
                    Err(psd_take_error(p, 8))
                } else if exists|i: int| p <= i < p + 8 && m[i] != 0 {
                    Err("PSD mask feathering is not supported without rasterizing that mask."@)
                } else {
                    Ok(Some(Mask { bounds: b, background: m[16], flags: m[17], density }))
                }
            },
        }
    }
}

pub open spec fn fits_i32(v: int) -> bool {
    i32::MIN <= v <= i32::MAX
}

/// A mask positioned relative to its layer, when its flags say so.
pub open spec fn placed_mask(mask: Option<Mask>, layer: Bounds) -> Result<Option<Mask>, Seq<char>> {
    match mask {
        None => Ok(None),
        Some(m) => if m.flags & 1 == 0 {
            Ok(Some(m))
        } else if fits_i32(m.bounds.left + layer.left) && fits_i32(m.bounds.right + layer.left)
            && fits_i32(m.bounds.top + layer.top) && fits_i32(m.bounds.bottom + layer.top) {
            Ok(Some(Mask {
                bounds: Bounds {
                    top: (m.bounds.top + layer.top) as i32,
                    left: (m.bounds.left + layer.left) as i32,
                    bottom: (m.bounds.bottom + layer.top) as i32,
                    right: (m.bounds.right + layer.left) as i32,
                },
                ..m
            }))
        } else {
            Err("Mask position overflow"@)
        },
    }
}

/// The default "Blend If" range record, which the importer accepts.
pub open spec fn default_blend_range() -> Seq<u8> {
    seq![0u8, 0u8, 255u8, 255u8, 0u8, 0u8, 255u8, 255u8]
}

/// Whether every whole eight-byte record of `ranges` is the default range.
pub open spec fn default_ranges(ranges: Seq<u8>) -> bool {
    forall|k: int| 0 <= k < ranges.len() / 8 ==> #[trigger] ranges.subrange(8 * k, 8 * k + 8) == default_blend_range()
}

/// Whether a tagged-block key marks content the importer cannot preserve
/// (effects, fills, smart objects and adjustments).
pub open spec fn unsupported_key(code: int) -> bool {
    code == 0x4764466c || code == 0x5074466c || code == 0x536f4c64 || code == 0x536f4c45
        || code == 0x506c4c64 || code == 0x706c4c64 || code == 0x6c724658 || code == 0x6c667832
        || code == 0x6c6d6678 || code == 0x6c65766c || code == 0x63757276 || code == 0x62726974
        || code == 0x626c6e63 || code == 0x68756532 || code == 0x73656c63 || code == 0x6772646d
        || code == 0x6e767274 || code == 0x74687273 || code == 0x706f7374 || code == 0x6d697872
        || code == 0x626c7768 || code == 0x65787041 || code == 0x76696241 || code == 0x636c724c
}

/// The effect of one tagged block with key `code` and payload `value`.
pub open spec fn apply_block(code: int, value: Seq<u8>, st: BlockState) -> Result<BlockState, Seq<char>> {
    if code == 0x694f7061 {
        if value.len() == 0 { Err("Missing PSD fill opacity"@) } else { Ok(BlockState { fill_opacity: value[0], ..st }) }
    } else if code == 0x6c756e69 {
        if !avail(value, 0, 4) {
            Err(psd_take_error(0, 4))
        } else if be32(value, 0) > 32768 {
            Err("PSD layer name is too long."@)
        } else {
            match psd_u16s(value, 4, be32(value, 0) as nat, seq![]) {
                Err(e) => Err(e),
                Ok((units, _)) => Ok(BlockState { name: utf16_lossy(units.map_values(|u: int| u as u16)), ..st }),
            }
        }
    } else if code == 0x6c736374 || code == 0x6c73646b {
        if !avail(value, 0, 4) {
            Err(psd_take_error(0, 4))
        } else if value.len() < 12 {
            Ok(BlockState { group: be32(value, 0), ..st })
        } else if value.subrange(4, 8) != signature_8bim() {
            Err("Invalid PSD group blend signature"@)
        } else {
            Ok(BlockState { group: be32(value, 0), blend: value.subrange(8, 12), ..st })
        }
    } else if code == 0x766d736b || code == 0x76736d73 {
        Ok(BlockState { vector: Some(value), ..st })
    } else if code == 0x536f436f {
        Ok(BlockState { fill: Some(value), ..st })
    } else if code == 0x76736367 {
        if value.len() >= 4 && be32(value, 0) == 0x536f436f {
            Ok(BlockState { fill: Some(value.skip(4)), ..st })
        } else {
            Ok(BlockState { effects: true, ..st })
        }
    } else if code == 0x7673746b {
        Ok(BlockState { style: Some(value), ..st })
    } else if unsupported_key(code) {
        Ok(BlockState { effects: true, ..st })
    } else {
        Ok(st)
    }
}

/// One tagged block at `pos` of the extra data `x`: the state after it and the
/// position that follows.
pub open spec fn block_step(x: Seq<u8>, pos: int, st: BlockState) -> Result<(BlockState, int), Seq<char>> {
    if be32(x, pos) != 0x3842494d && be32(x, pos) != 0x38423634 {
        Err("Invalid PSD layer tag."@)
    } else {
        match psd_section(x, pos + 8) {
            Err(e) => Err(e),
            Ok((value, q)) => if value.len() % 2 != 0 && !avail(x, q, 1) {
                Err(psd_take_error(q, 1))
            } else {
                match apply_block(be32(x, pos + 4), value, st) {
                    Err(e) => Err(e),
                    Ok(next) => Ok((next, if value.len() % 2 != 0 { q + 1 } else { q })),
                }
            },
        }
    }
}

/// The tagged blocks of the extra data `x` from `pos`.
pub open spec fn blocks(x: Seq<u8>, pos: int, st: BlockState) -> Result<BlockState, Seq<char>>
    decreases x.len() - pos,
{
    if pos < 0 || pos + 12 > x.len() {
        Ok(st)
    } else {
        match block_step(x, pos, st) {
            Err(e) => Err(e),
            Ok((next, q)) => if q <= pos { Ok(next) } else { blocks(x, q, next) },
        }
    }
}

/// The mask, name and tagged blocks of a record's extra data `x`, for a
/// layer with bounds `bounds` and blend key `blend`.
pub open spec fn record_extra(x: Seq<u8>, bounds: Bounds, blend: Seq<u8>) -> Result<(Option<Mask>, BlockState), Seq<char>> {
    match psd_section(x, 0) {
        Err(e) => Err(e),
        Ok((mask_data, p)) => match stored_mask(mask_data) {
            Err(e) => Err(e),
            Ok(stored) => match placed_mask(stored, bounds) {
                Err(e) => Err(e),
                Ok(mask) => match psd_section(x, p) {
                    Err(e) => Err(e),
                    Ok((ranges, q)) => if ranges.len() != 0 && !default_ranges(ranges) {
                        Err("Custom PSD Blend If ranges are not supported."@)
                    } else if !avail(x, q, 1) {
                        Err(psd_take_error(q, 1))
                    } else if !avail(x, q + 1, x[q] as int) {
                        Err(psd_take_error(q + 1, x[q] as int))
                    } else {
                        let n = x[q] as int;
                        let pad = (4 - (n + 1) % 4) % 4;
                        if !avail(x, q + 1 + n, pad) {
                            Err(psd_take_error(q + 1 + n, pad))
                        } else {
                            let st = BlockState {
                                name: x.subrange(q + 1, q + 1 + n).map_values(|b: u8| mac_roman_char(b)),
                                blend,
                                group: 0,
                                effects: false,
                                fill_opacity: 255,
                                vector: None,
                                fill: None,
                                style: None,
                            };
                            match blocks(x, q + 1 + n + pad, st) {
                                Err(e) => Err(e),
                                Ok(b) => Ok((mask, b)),
                            }
                        }
                    },
                },
            },
        },
    }
}

/// The layer record at `pos` of the layer information `s`, and the position
/// after it.
pub open spec fn layer_record(s: Seq<u8>, pos: int) -> Result<(RecordView, int), Seq<char>> {
    match record_head(s, pos) {
        Err(e) => Err(e),
        Ok((bounds, channels, blend, opacity, clipping, flags, extra, next)) => match record_extra(extra, bounds, blend) {
            Err(e) => Err(e),
            Ok((mask, st)) => Ok((RecordView {
                bounds, channels, opacity, clipping, visible: flags & 2 == 0, mask, blocks: st,
            }, next)),
        },
    }
}


pub open spec fn opt_bytes(o: Option<&[u8]>) -> Option<Seq<u8>> {
    match o {
        Some(v) => Some(v@),
        None => None,
    }
}

/// The tagged-block facts of a record while it is read.
pub struct Blocks<'a> {
    pub name: String,
    pub blend: &'a [u8],
    pub group: u32,
    pub effects: bool,
    pub fill_opacity: u8,
    pub vector: Option<&'a [u8]>,
    pub fill: Option<&'a [u8]>,
    pub style: Option<&'a [u8]>,
}

impl<'a> Blocks<'a> {
    pub open spec fn view(&self) -> BlockState {
        BlockState {
            name: self.name@,
            blend: self.blend@,
            group: self.group as int,
            effects: self.effects,
            fill_opacity: self.fill_opacity,
            vector: opt_bytes(self.vector),
            fill: opt_bytes(self.fill),
            style: opt_bytes(self.style),
        }
    }
}

/// A PSD layer record: everything but its channel image data.
pub struct LayerRecord<'a> {
    pub bounds: Bounds,
    /// (channel id, length of its image data)
    pub channels: Vec<(i16, usize)>,
    pub opacity: u8,
    pub clipping: bool,
    pub visible: bool,
    pub mask: Option<Mask>,
    pub blocks: Blocks<'a>,
}

impl<'a> LayerRecord<'a> {
    pub open spec fn view(&self) -> RecordView {
        RecordView {
            bounds: self.bounds,
            channels: self.channels@.map_values(|c: (i16, usize)| (c.0 as int, c.1 as int)),
            opacity: self.opacity,
            clipping: self.clipping,
            visible: self.visible,
            mask: self.mask,
            blocks: self.blocks.view(),
        }
    }
}

/// Read `count` (channel id, data length) pairs.
fn read_channel_table(r: &mut Cursor<'_>, count: usize) -> (res: Result<Vec<(i16, usize)>, String>)
    requires
        old(r).wf(),
    ensures
        final(r).wf(),
        final(r).data@ == old(r).data@,
        match channel_table(old(r).data@, old(r).pos as int, count as nat, seq![]) {
            Ok((t, next)) => res matches Ok(v) && v@.map_values(|c: (i16, usize)| (c.0 as int, c.1 as int)) == t
                && final(r).pos == next,
            Err(e) => res matches Err(x) && x@ == e,
        },
{
    let ghost s = r.data@;
    let ghost start = r.pos as int;
    let mut table: Vec<(i16, usize)> = Vec::new();
    let mut k: usize = 0;
    assert(table@.map_values(|c: (i16, usize)| (c.0 as int, c.1 as int)) =~= seq![]);
    while k < count
        invariant
            r.wf(),
            r.data@ == s,
            s == old(r).data@,
            start == old(r).pos,
            k <= count,
            channel_table(s, start, count as nat, seq![])
                == channel_table(s, r.pos as int, (count - k) as nat, table@.map_values(|c: (i16, usize)| (c.0 as int, c.1 as int))),
        decreases count - k,
    {
        let u = r.u16()?;
        let id: i16 = if u >= 0x8000 { (u - 0x8000) as i16 - 0x4000 - 0x4000 } else { u as i16 };
        let length = r.u32()? as usize;
        let ghost before = table@;
        table.push((id, length));
        assert(table@.map_values(|c: (i16, usize)| (c.0 as int, c.1 as int))
            =~= before.map_values(|c: (i16, usize)| (c.0 as int, c.1 as int)).push((id as int, length as int)));
        k = k + 1;
    }
    Ok(table)
}

/// Whether `d` holds four bytes equal to `signature_8bim()`.
fn is_8bim(d: &[u8]) -> (b: bool)
    requires
        d@.len() == 4,
    ensures
        b == (d@ == signature_8bim()),
{
    let b = d[0] == 0x38 && d[1] == 0x42 && d[2] == 0x49 && d[3] == 0x4D;
    proof {
        if b {
            assert(d@ =~= signature_8bim());
        } else if d@ == signature_8bim() {
            assert(d@[0] == signature_8bim()[0]);
            assert(d@[1] == signature_8bim()[1]);
            assert(d@[2] == signature_8bim()[2]);
            assert(d@[3] == signature_8bim()[3]);
        }
    }
    b
}

/// The fixed part of a layer record.
struct Head<'a> {
    bounds: Bounds,
    channels: Vec<(i16, usize)>,
    blend: &'a [u8],
    opacity: u8,
    clipping: bool,
    flags: u8,
    extra: &'a [u8],
}

fn read_head<'a>(r: &mut Cursor<'a>) -> (res: Result<Head<'a>, String>)
    requires
        old(r).wf(),
    ensures
        final(r).wf(),
        final(r).data@ == old(r).data@,
        match record_head(old(r).data@, old(r).pos as int) {
            Ok((bounds, channels, blend, opacity, clipping, flags, extra, next)) => res matches Ok(h)
                && h.bounds == bounds
                && h.channels@.map_values(|c: (i16, usize)| (c.0 as int, c.1 as int)) == channels
                && h.blend@ == blend && h.opacity == opacity && h.clipping == clipping && h.flags == flags
                && h.extra@ == extra && final(r).pos == next,
            Err(e) => res matches Err(x) && x@ == e,
        },
{
    let bounds = Bounds::read(r)?;
    match bounds.size() {
        Ok(_) => {},
        Err(e) => return Err(e),
    }
    let count = r.u16()? as usize;
    if count > 56 {
        return Err(String::from_str("Too many PSD layer channels."));
    }
    let channels = read_channel_table(r, count)?;
    let signature = r.take(4)?;
    if !is_8bim(signature) {
        return Err(String::from_str("Invalid PSD layer signature."));
    }
    let blend = r.take(4)?;
    let opacity = r.take(1)?[0];
    let clipping = r.take(1)?[0] != 0;
    let flags = r.take(1)?[0];
    r.take(1)?;
    let extra = r.section()?;
    Ok(Head { bounds, channels, blend, opacity, clipping, flags, extra })
}

/// Whether every byte of `d` is zero.
fn zeros(d: &[u8]) -> (b: bool)
    ensures
        b == (forall|k: int| 0 <= k < d@.len() ==> d@[k] == 0),
{
    let mut i: usize = 0;
    while i < d.len()
        invariant
            i <= d@.len(),
            forall|k: int| 0 <= k < i ==> d@[k] == 0,
        decreases d@.len() - i,
    {
        if d[i] != 0 {
            return false;
        }
        i = i + 1;
    }
    true
}

/// Read a user mask record.
fn read_stored_mask(data: &[u8]) -> (res: Result<Option<Mask>, String>)
    ensures
        match stored_mask(data@) {
            Ok(m) => res matches Ok(v) && v == m,
            Err(e) => res matches Err(x) && x@ == e,
        },
{
    if data.len() == 0 {
        return Ok(None);
    }
    let mut m = Cursor::new(data);
    let bounds = Bounds::read(&mut m)?;
    let background = m.take(1)?[0];
    let flags = m.take(1)?[0];
    let mut density: u8 = 255;
    if flags & 16 != 0 {
        let parameters = m.take(1)?[0];
        if parameters & 1 != 0 {
            density = m.take(1)?[0];
        }
        if parameters & 2 != 0 {
            let feather = m.take(8)?;
            if !zeros(feather) {
                assert(exists|i: int| m.pos - 8 <= i < m.pos && data@[i] != 0) by {
                    let k = choose|k: int| 0 <= k < feather@.len() && feather@[k] != 0;
                    assert(data@[m.pos - 8 + k] == feather@[k]);
                }
                return Err(String::from_str("PSD mask feathering is not supported without rasterizing that mask."));
            }
            assert forall|i: int| m.pos - 8 <= i < m.pos implies data@[i] == 0 by {
                assert(feather@[i - (m.pos - 8)] == 0);
            }
        }
    }
    Ok(Some(Mask { bounds, background, flags, density }))
}

/// Position a mask relative to its layer when its flags say so.
fn place_mask(mask: Option<Mask>, layer: Bounds) -> (res: Result<Option<Mask>, String>)
    ensures
        match placed_mask(mask, layer) {
            Ok(m) => res matches Ok(v) && v == m,
            Err(e) => res matches Err(x) && x@ == e,
        },
{
    match mask {
        None => Ok(None),
        Some(m) => {
            if m.flags & 1 == 0 {
                return Ok(Some(m));
            }
            let left = match m.bounds.left.checked_add(layer.left) {
                Some(v) => v,
                None => return Err(String::from_str("Mask position overflow")),
            };
            let right = match m.bounds.right.checked_add(layer.left) {
                Some(v) => v,
                None => return Err(String::from_str("Mask position overflow")),
            };
            let top = match m.bounds.top.checked_add(layer.top) {
                Some(v) => v,
                None => return Err(String::from_str("Mask position overflow")),
            };
            let bottom = match m.bounds.bottom.checked_add(layer.top) {
                Some(v) => v,
                None => return Err(String::from_str("Mask position overflow")),
            };
            Ok(Some(Mask { bounds: Bounds { top, left, bottom, right }, ..m }))
        },
    }
}

/// Whether every whole eight-byte "Blend If" record is the default one.
fn default_range_records(ranges: &[u8]) -> (b: bool)
    ensures
        b == default_ranges(ranges@),
{
    let len = ranges.len();
    let n = len / 8;
    let mut k: usize = 0;
    while k < n
        invariant
            k <= n,
            len == ranges@.len(),
            n == ranges@.len() / 8,
            forall|j: int| 0 <= j < k ==> #[trigger] ranges@.subrange(8 * j, 8 * j + 8) == default_blend_range(),
        decreases n - k,
    {
        assert(8 * k + 8 <= len) by (nonlinear_arith)
            requires k < n, n == len / 8;
        let o = 8 * k;
        let ok = ranges[o] == 0 && ranges[o + 1] == 0 && ranges[o + 2] == 255 && ranges[o + 3] == 255
            && ranges[o + 4] == 0 && ranges[o + 5] == 0 && ranges[o + 6] == 255 && ranges[o + 7] == 255;
        let ghost rec = ranges@.subrange(8 * k, 8 * k + 8);
        if !ok {
            assert(rec != default_blend_range()) by {
                if rec == default_blend_range() {
                    assert(rec[0] == default_blend_range()[0]);
                    assert(rec[1] == default_blend_range()[1]);
                    assert(rec[2] == default_blend_range()[2]);
                    assert(rec[3] == default_blend_range()[3]);
                    assert(rec[4] == default_blend_range()[4]);
                    assert(rec[5] == default_blend_range()[5]);
                    assert(rec[6] == default_blend_range()[6]);
                    assert(rec[7] == default_blend_range()[7]);
                }
            }
            return false;
        }
        assert(rec =~= default_blend_range());
        k = k + 1;
    }
    true
}


/// The big-endian 32-bit value at `p` of `d`.
fn code_at(d: &[u8], p: usize) -> (v: u32)
    requires
        p + 4 <= d@.len(),
    ensures
        v == be32(d@, p as int),
{
    ((d[p] as u32 * 256 + d[p + 1] as u32) * 256 + d[p + 2] as u32) * 256 + d[p + 3] as u32
}

/// Whether `code` marks content the importer cannot preserve.
fn is_unsupported_key(code: u32) -> (b: bool)
    ensures
        b == unsupported_key(code as int),
{
    code == 0x4764466c || code == 0x5074466c || code == 0x536f4c64 || code == 0x536f4c45
        || code == 0x506c4c64 || code == 0x706c4c64 || code == 0x6c724658 || code == 0x6c667832
        || code == 0x6c6d6678 || code == 0x6c65766c || code == 0x63757276 || code == 0x62726974
        || code == 0x626c6e63 || code == 0x68756532 || code == 0x73656c63 || code == 0x6772646d
        || code == 0x6e767274 || code == 0x74687273 || code == 0x706f7374 || code == 0x6d697872
        || code == 0x626c7768 || code == 0x65787041 || code == 0x76696241 || code == 0x636c724c
}

/// Decode the Unicode layer name of a `luni` block.
fn unicode_name(value: &[u8]) -> (res: Result<String, String>)
    ensures
        match apply_block(0x6c756e69, value@, BlockState { name: seq![], blend: seq![], group: 0, effects: false, fill_opacity: 0, vector: None, fill: None, style: None }) {
            Ok(st) => res matches Ok(n) && n@ == st.name,
            Err(e) => res matches Err(x) && x@ == e,
        },
{
    let mut v = Cursor::new(value);
    let count = v.u32()? as usize;
    if count > 32768 {
        return Err(String::from_str("PSD layer name is too long."));
    }
    let raw = psd_read_lengths(&mut v, count)?;
    proof {
        lemma_psd_u16s_len(value@, 4, count as nat, seq![]);
        lemma_psd_u16s_range(value@, 4, count as nat, seq![]);
    }
    let ghost expected = match psd_u16s(value@, 4, count as nat, seq![]) {
        Ok((u, _)) => u,
        Err(_) => seq![],
    };
    let mut units: Vec<u16> = Vec::new();
    let mut k: usize = 0;
    while k < raw.len()
        invariant
            k <= raw@.len(),
            raw@.len() == expected.len(),
            forall|i: int| 0 <= i < expected.len() ==> raw@[i] == expected[i] && 0 <= expected[i] < 65536,
            units@.len() == k,
            forall|i: int| 0 <= i < k ==> units@[i] == expected[i] as u16,
        decreases raw@.len() - k,
    {
        units.push(raw[k] as u16);
        k = k + 1;
    }
    assert(units@ =~= expected.map_values(|u: int| u as u16));
    let chars = decode_utf16_lossy(units.as_slice());
    Ok(crate::text::string_from_chars(chars.as_slice()))
}

/// Apply one tagged block with key `code` and payload `value`.
fn apply_tagged<'a>(code: u32, value: &'a [u8], st: &mut Blocks<'a>) -> (res: Result<(), String>)
    ensures
        match apply_block(code as int, value@, old(st).view()) {
            Ok(next) => res is Ok && final(st).view() == next,
            Err(e) => res matches Err(x) && x@ == e,
        },
{
    if code == 0x694f7061 {
        if value.len() == 0 {
            return Err(String::from_str("Missing PSD fill opacity"));
        }
        st.fill_opacity = value[0];
    } else if code == 0x6c756e69 {
        st.name = unicode_name(value)?;
    } else if code == 0x6c736374 || code == 0x6c73646b {
        let mut v = Cursor::new(value);
        st.group = v.u32()?;
        if value.len() >= 12 {
            let signature = v.take(4)?;
            if !is_8bim(signature) {
                return Err(String::from_str("Invalid PSD group blend signature"));
            }
            st.blend = v.take(4)?;
        }
    } else if code == 0x766d736b || code == 0x76736d73 {
        st.vector = Some(value);
    } else if code == 0x536f436f {
        st.fill = Some(value);
    } else if code == 0x76736367 {
        if value.len() >= 4 && code_at(value, 0) == 0x536f436f {
            let rest = &value[4..value.len()];
            assert(rest@ =~= value@.skip(4));
            st.fill = Some(rest);
        } else {
            st.effects = true;
        }
    } else if code == 0x7673746b {
        st.style = Some(value);
    } else if is_unsupported_key(code) {
        st.effects = true;
    }
    Ok(())
}

/// Read one tagged block of a record's extra data.
fn read_block<'a>(x: &mut Cursor<'a>, st: &mut Blocks<'a>) -> (res: Result<(), String>)
    requires
        old(x).wf(),
        old(x).pos + 12 <= old(x).data@.len(),
    ensures
        final(x).wf(),
        final(x).data@ == old(x).data@,
        match block_step(old(x).data@, old(x).pos as int, old(st).view()) {
            Ok((next, q)) => res is Ok && final(st).view() == next && final(x).pos == q && q > old(x).pos,
            Err(e) => res matches Err(v) && v@ == e,
        },
{
    let ghost s = x.data@;
    let ghost pos = x.pos as int;
    let signature = x.take(4)?;
    let sig = code_at(signature, 0);
    assert(sig == be32(s, pos));
    if sig != 0x3842494d && sig != 0x38423634 {
        return Err(String::from_str("Invalid PSD layer tag."));
    }
    let key = x.take(4)?;
    let code = code_at(key, 0);
    assert(code == be32(s, pos + 4));
    let value = x.section()?;
    if value.len() % 2 != 0 {
        x.take(1)?;
    }
    apply_tagged(code, value, st)
}

/// Read a record's mask, name and tagged blocks.
fn read_extra<'a>(extra: &'a [u8], bounds: Bounds, blend: &'a [u8]) -> (res: Result<(Option<Mask>, Blocks<'a>), String>)
    ensures
        match record_extra(extra@, bounds, blend@) {
            Ok((mask, st)) => res matches Ok(v) && v.0 == mask && v.1.view() == st,
            Err(e) => res matches Err(v) && v@ == e,
        },
{
    let mut x = Cursor::new(extra);
    let mask_data = x.section()?;
    let stored = read_stored_mask(mask_data)?;
    let mask = place_mask(stored, bounds)?;
    let ranges = x.section()?;
    if ranges.len() != 0 && !default_range_records(ranges) {
        return Err(String::from_str("Custom PSD Blend If ranges are not supported."));
    }
    let n = x.take(1)?[0] as usize;
    let name = mac_roman(x.take(n)?);
    x.take((4 - (n + 1) % 4) % 4)?;
    let mut st = Blocks {
        name,
        blend,
        group: 0,
        effects: false,
        fill_opacity: 255,
        vector: None,
        fill: None,
        style: None,
    };
    let len = extra.len();
    while len >= 12 && x.pos <= len - 12
        invariant
            x.wf(),
            x.data@ == extra@,
            len == extra@.len(),
            record_extra(extra@, bounds, blend@) == (match blocks(extra@, x.pos as int, st.view()) {
                Err(e) => Err(e),
                Ok(b) => Ok((mask, b)),
            }),
        decreases len - x.pos,
    {
        read_block(&mut x, &mut st)?;
    }
    Ok((mask, st))
}

/// Read the layer record at the cursor, without its channel image data.
pub fn read_record<'a>(r: &mut Cursor<'a>) -> (res: Result<LayerRecord<'a>, String>)
    requires
        old(r).wf(),
    ensures
        final(r).wf(),
        final(r).data@ == old(r).data@,
        match layer_record(old(r).data@, old(r).pos as int) {
            Ok((rec, next)) => res matches Ok(v) && v.view() == rec && final(r).pos == next,
            Err(e) => res matches Err(x) && x@ == e,
        },
{
    let head = read_head(r)?;
    let (mask, blocks) = read_extra(head.extra, head.bounds, head.blend)?;
    Ok(LayerRecord {
        bounds: head.bounds,
        channels: head.channels,
        opacity: head.opacity,
        clipping: head.clipping,
        visible: head.flags & 2 == 0,
        mask,
        blocks,
    })
}


/// `acc` followed by the `count` layer records stored from `pos`, and the
/// position after them.
pub open spec fn layer_records(s: Seq<u8>, pos: int, count: nat, acc: Seq<RecordView>) -> Result<(Seq<RecordView>, int), Seq<char>>
    decreases count,
{
    if count == 0 {
        Ok((acc, pos))
    } else {
        match layer_record(s, pos) {
            Err(e) => Err(e),
            Ok((rec, next)) => layer_records(s, next, (count - 1) as nat, acc.push(rec)),
        }
    }
}

/// The number of layer records announced by a layer count; a negative count
/// only marks merged transparency.
pub open spec fn record_count(raw: int) -> nat {
    let c = signed16(raw);
    (if c < 0 { -c } else { c }) as nat
}

/// The layer records of the layer information `s`, and the position of their
/// channel image data.
pub open spec fn layer_info_records(s: Seq<u8>) -> Result<(Seq<RecordView>, int), Seq<char>> {
    if !avail(s, 0, 2) {
        Err(psd_take_error(0, 2))
    } else {
        layer_records(s, 2, record_count(be16(s, 0)), seq![])
    }
}

pub open spec fn record_views<'a>(records: Seq<LayerRecord<'a>>) -> Seq<RecordView> {
    records.map_values(|rec: LayerRecord<'a>| rec.view())
}

/// Read the layer count and every layer record of the layer information.
pub fn read_records<'a>(r: &mut Cursor<'a>) -> (res: Result<Vec<LayerRecord<'a>>, String>)
    requires
        old(r).wf(),
        old(r).pos == 0,
    ensures
        final(r).wf(),
        final(r).data@ == old(r).data@,
        match layer_info_records(old(r).data@) {
            Ok((recs, next)) => res matches Ok(v) && record_views(v@) == recs && final(r).pos == next,
            Err(e) => res matches Err(x) && x@ == e,
        },
{
    let ghost s = r.data@;
    let raw = r.u16()?;
    let count: usize = if raw >= 0x8000 { (0x1_0000 - raw as u32) as usize } else { raw as usize };
    let mut records: Vec<LayerRecord<'a>> = Vec::new();
    let mut k: usize = 0;
    assert(record_views(records@) =~= seq![]);
    while k < count
        invariant
            r.wf(),
            r.data@ == s,
            s == old(r).data@,
            k <= count,
            count == record_count(be16(s, 0)),
            avail(s, 0, 2),
            layer_info_records(s) == layer_records(s, r.pos as int, (count - k) as nat, record_views(records@)),
        decreases count - k,
    {
        let rec = read_record(r)?;
        let ghost before = records@;
        records.push(rec);
        assert(record_views(records@) =~= record_views(before).push(rec.view()));
        k = k + 1;
    }
    Ok(records)
}


// ---------------------------------------------------------------------------
// Blend modes.

/// The blend mode a record's four-byte key names, among those the drawing
/// supports.
pub open spec fn key_blend(key: Seq<u8>) -> Option<BlendMode> {
    if key == seq![0x6Eu8, 0x6Fu8, 0x72u8, 0x6Du8] {
        Some(BlendMode::Normal)
    } else if key == seq![0x6Du8, 0x75u8, 0x6Cu8, 0x20u8] {
        Some(BlendMode::Multiply)
    } else if key == seq![0x64u8, 0x61u8, 0x72u8, 0x6Bu8] {
        Some(BlendMode::Darken)
    } else if key == seq![0x73u8, 0x63u8, 0x72u8, 0x6Eu8] {
        Some(BlendMode::Screen)
    } else if key == seq![0x6Cu8, 0x69u8, 0x74u8, 0x65u8] {
        Some(BlendMode::Lighten)
    } else if key == seq![0x73u8, 0x61u8, 0x74u8, 0x20u8] {
        Some(BlendMode::Saturation)
    } else {
        None
    }
}

/// Whether `key` spells the four bytes `a`, `b`, `c`, `d`.
fn key_is(key: &[u8], a: u8, b: u8, c: u8, d: u8) -> (r: bool)
    ensures
        r == (key@ == seq![a, b, c, d]),
{
    if key.len() != 4 {
        return false;
    }
    let r = key[0] == a && key[1] == b && key[2] == c && key[3] == d;
    if r {
        assert(key@ =~= seq![a, b, c, d]);
    }
    r
}

/// The blend mode named by a record's key, if supported.
pub fn blend_mode(key: &[u8]) -> (m: Option<BlendMode>)
    ensures
        m == key_blend(key@),
{
    if key_is(key, 0x6E, 0x6F, 0x72, 0x6D) {
        Some(BlendMode::Normal)
    } else if key_is(key, 0x6D, 0x75, 0x6C, 0x20) {
        Some(BlendMode::Multiply)
    } else if key_is(key, 0x64, 0x61, 0x72, 0x6B) {
        Some(BlendMode::Darken)
    } else if key_is(key, 0x73, 0x63, 0x72, 0x6E) {
        Some(BlendMode::Screen)
    } else if key_is(key, 0x6C, 0x69, 0x74, 0x65) {
        Some(BlendMode::Lighten)
    } else if key_is(key, 0x73, 0x61, 0x74, 0x20) {
        Some(BlendMode::Saturation)
    } else {
        None
    }
}


// ---------------------------------------------------------------------------
// Channel image data.

/// The color channels a layer of color `mode` stores: four for CMYK, three
/// for RGB and Lab, one otherwise.
pub open spec fn base_channels(mode: int) -> int {
    if mode == 4 { 4 } else if mode == 3 || mode == 9 { 3 } else { 1 }
}

/// The refusal of a channel holding a combined vector and user mask.
pub open spec fn combined_mask_error(name: Seq<char>) -> Seq<char> {
    "Layer '"@ + name + "' uses a combined vector/user mask that cannot yet be imported."@
}

/// The width and height of channel `id` of record `rec`: the user mask's
/// for the mask channel, the layer's otherwise.
pub open spec fn plane_dims(rec: RecordView, id: int) -> Result<(int, int), Seq<char>> {
    if id == -2 {
        match rec.mask {
            None => Err("PSD layer mask channel has no bounds"@),
            Some(m) => if layer_size_ok(m.bounds.spec_width(), m.bounds.spec_height()) {
                Ok((m.bounds.spec_width(), m.bounds.spec_height()))
            } else {
                Err("Invalid or overflowing PSD layer dimensions."@)
            },
        }
    } else if id == -3 {
        Err(combined_mask_error(rec.blocks.name))
    } else {
        Ok((rec.bounds.spec_width(), rec.bounds.spec_height()))
    }
}

/// Whether a decoded plane of channel `id` is among `planes`.
pub open spec fn has_plane(planes: Seq<(int, Seq<u8>)>, id: int) -> bool {
    exists|j: int| 0 <= j < planes.len() && (#[trigger] planes[j]).0 == id
}

/// Channel `ch` (id, data length) of record `rec`, its data at `pos` of `s`:
/// the planes decoded so far, and the position after its data. Channels the
/// drawing does not use, and empty ones, are skipped.
pub open spec fn plane_step(s: Seq<u8>, pos: int, ch: (int, int), rec: RecordView, mode: int, depth: int,
    acc: Seq<(int, Seq<u8>)>) -> Result<(Seq<(int, Seq<u8>)>, int), Seq<char>>
{
    let (id, len) = ch;
    if !avail(s, pos, len) {
        Err(psd_take_error(pos, len))
    } else if id >= base_channels(mode) || id < -3 {
        Ok((acc, pos + len))
    } else {
        match plane_dims(rec, id) {
            Err(e) => Err(e),
            Ok((w, h)) => if w == 0 || h == 0 {
                Ok((acc, pos + len))
            } else {
                match psd_channels(s.subrange(pos, pos + len), w, h, depth, 1) {
                    Err(e) => Err(e),
                    Ok(plane) => if has_plane(acc, id) {
                        Err("Duplicate PSD layer channel."@)
                    } else {
                        Ok((acc.push((id, plane)), pos + len))
                    },
                }
            },
        }
    }
}

/// The planes of channels `chans` of record `rec`, their data from `pos`.
pub open spec fn record_planes(s: Seq<u8>, pos: int, chans: Seq<(int, int)>, rec: RecordView, mode: int, depth: int,
    acc: Seq<(int, Seq<u8>)>) -> Result<(Seq<(int, Seq<u8>)>, int), Seq<char>>
    decreases chans.len(),
{
    if chans.len() == 0 {
        Ok((acc, pos))
    } else {
        match plane_step(s, pos, chans[0], rec, mode, depth, acc) {
            Err(e) => Err(e),
            Ok((a, p)) => record_planes(s, p, chans.skip(1), rec, mode, depth, a),
        }
    }
}

pub open spec fn plane_views(planes: Seq<(i16, Vec<u8>)>) -> Seq<(int, Seq<u8>)> {
    planes.map_values(|p: (i16, Vec<u8>)| (p.0 as int, p.1@))
}

proof fn lemma_decode_bounds(w: int, h: int, depth: int)
    requires
        w >= 1,
        h >= 1,
        1 <= depth <= 32,
        w * h * 16 <= isize::MAX,
    ensures
        w * depth + 7 <= usize::MAX,
        row_bytes(w, depth) * h * 1 < u64::MAX,
{
    assert(w * 16 <= isize::MAX) by (nonlinear_arith) requires w * h * 16 <= isize::MAX, h >= 1, w >= 1;
    assert(w * depth <= w * 32) by (nonlinear_arith) requires 1 <= depth <= 32, w >= 1;
    assert(usize::MAX == 2 * isize::MAX + 1);
    assert(row_bytes(w, depth) <= w * 4 + 1) by (nonlinear_arith) requires w * depth <= w * 32, w >= 1;
    assert(row_bytes(w, depth) * h <= w * h * 4 + h) by (nonlinear_arith)
        requires row_bytes(w, depth) <= w * 4 + 1, h >= 1, row_bytes(w, depth) >= 0;
    assert(h <= w * h) by (nonlinear_arith) requires w >= 1, h >= 1;
    assert(w * 32 + 7 <= usize::MAX) by {
        if isize::MAX == 0x7FFF_FFFF {
        } else {
        }
    }
}

/// Decode the image data of `rec`'s channels at the cursor, skipping
/// channels the drawing does not use.
pub fn read_planes(r: &mut Cursor<'_>, rec: &LayerRecord<'_>, mode: u16, depth: u16) -> (res: Result<Vec<(i16, Vec<u8>)>, String>)
    requires
        old(r).wf(),
        1 <= depth <= 32,
        layer_size_ok(rec.bounds.spec_width(), rec.bounds.spec_height()),
    ensures
        final(r).wf(),
        final(r).data@ == old(r).data@,
        match record_planes(old(r).data@, old(r).pos as int, rec.view().channels, rec.view(), mode as int, depth as int, seq![]) {
            Ok((planes, next)) => res matches Ok(v) && plane_views(v@) == planes && final(r).pos == next,
            Err(e) => res matches Err(x) && x@ == e,
        },
{
    let ghost s = r.data@;
    let ghost chans = rec.view().channels;
    let (w, h) = match rec.bounds.size() {
        Ok(d) => d,
        Err(e) => return Err(e),
    };
    let base: i16 = if mode == 4 { 4 } else if mode == 3 || mode == 9 { 3 } else { 1 };
    let mut planes: Vec<(i16, Vec<u8>)> = Vec::new();
    let mut k: usize = 0;
    assert(chans.skip(0) =~= chans);
    assert(plane_views(planes@) =~= seq![]);
    while k < rec.channels.len()
        invariant
            r.wf(),
            r.data@ == s,
            s == old(r).data@,
            k <= rec.channels@.len(),
            chans == rec.view().channels,
            chans.len() == rec.channels@.len(),
            w == rec.bounds.spec_width(),
            h == rec.bounds.spec_height(),
            layer_size_ok(rec.bounds.spec_width(), rec.bounds.spec_height()),
            base == base_channels(mode as int),
            1 <= depth <= 32,
            record_planes(s, old(r).pos as int, chans, rec.view(), mode as int, depth as int, seq![])
                == record_planes(s, r.pos as int, chans.skip(k as int), rec.view(), mode as int, depth as int, plane_views(planes@)),
        decreases rec.channels@.len() - k,
    {
        let (id, len) = rec.channels[k];
        let ghost acc = plane_views(planes@);
        let ghost pos = r.pos as int;
        let ghost kk = k as int;
        assert(chans.skip(k as int)[0] == (id as int, len as int));
        assert(chans.skip(k as int).skip(1) =~= chans.skip(k + 1));
        let bytes = r.take(len)?;
        k += 1;
        if id >= base || id < -3 {
            continue;
        }
        let (cw, ch) = if id == -2 {
            match rec.mask {
                None => return Err(String::from_str("PSD layer mask channel has no bounds")),
                Some(m) => match m.bounds.size() {
                    Ok(d) => d,
                    Err(e) => return Err(e),
                },
            }
        } else if id == -3 {
            let mut msg = String::from_str("Layer '");
            msg.append(rec.blocks.name.as_str());
            msg.append("' uses a combined vector/user mask that cannot yet be imported.");
            return Err(msg);
        } else {
            (w, h)
        };
        if cw == 0 || ch == 0 {
            continue;
        }
        assert(layer_size_ok(cw as int, ch as int));
        proof { lemma_decode_bounds(cw as int, ch as int, depth as int); }
        let plane = decode_channels(bytes, cw, ch, depth, 1)?;
        let ghost step = if has_plane(acc, id as int) {
            Err::<(Seq<(int, Seq<u8>)>, int), Seq<char>>("Duplicate PSD layer channel."@)
        } else {
            Ok::<(Seq<(int, Seq<u8>)>, int), Seq<char>>((acc.push((id as int, plane@)), pos + len))
        };
        assert(plane_step(s, pos, (id as int, len as int), rec.view(), mode as int, depth as int, acc) == step);
        let mut j: usize = 0;
        while j < planes.len()
            invariant
                r.wf(),
                r.data@ == s,
                s == old(r).data@,
                j <= planes@.len(),
                acc == plane_views(planes@),
                plane_step(s, pos, (id as int, len as int), rec.view(), mode as int, depth as int, acc) == step,
                step == (if has_plane(acc, id as int) {
                    Err::<(Seq<(int, Seq<u8>)>, int), Seq<char>>("Duplicate PSD layer channel."@)
                } else {
                    Ok::<(Seq<(int, Seq<u8>)>, int), Seq<char>>((acc.push((id as int, plane@)), pos + len))
                }),
                chans == rec.view().channels,
                0 <= kk < chans.len(),
                chans.skip(kk)[0] == (id as int, len as int),
                record_planes(s, old(r).pos as int, chans, rec.view(), mode as int, depth as int, seq![])
                    == record_planes(s, pos, chans.skip(kk), rec.view(), mode as int, depth as int, acc),
                forall|q: int| 0 <= q < j ==> planes@[q].0 != id,
            decreases planes@.len() - j,
        {
            if planes[j].0 == id {
                proof {
                    assert(acc[j as int].0 == id as int);
                    assert(has_plane(acc, id as int));
                }
                return Err(String::from_str("Duplicate PSD layer channel."));
            }
            j += 1;
        }
        proof {
            if has_plane(acc, id as int) {
                let q = choose|q: int| 0 <= q < acc.len() && (#[trigger] acc[q]).0 == id as int;
                assert(planes@[q].0 == id);
            }
        }
        planes.push((id, plane));
        assert(plane_views(planes@) =~= acc.push((id as int, plane@)));
    }
    Ok(planes)
}

} // verus!
