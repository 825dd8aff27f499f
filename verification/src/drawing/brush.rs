//! Bounded ABR sampled-tip reader. Photoshop descriptors and dynamics are not
//! imported; only 8-bit sampled tips, raw or PackBits-compressed.
use vstd::prelude::*;
use std::sync::Arc;
use crate::text::{decimal, push_decimal, str_chars, string_from_chars};

verus! {

/// A sampled brush tip: a `width` × `height` coverage mask, row-major.
#[derive(Debug, Clone)]
pub struct BrushTip {
    pub name: String,
    pub width: usize,
    pub height: usize,
    pub mask: Vec<u8>,
}

/// The mathematical content of a [`BrushTip`].
pub struct TipView {
    pub name: Seq<char>,
    pub width: nat,
    pub height: nat,
    pub mask: Seq<u8>,
}

impl View for BrushTip {
    type V = TipView;

    open spec fn view(&self) -> TipView {
        TipView { name: self.name@, width: self.width as nat, height: self.height as nat, mask: self.mask@ }
    }
}

// ---------------------------------------------------------------------------
// Reading primitives, as mathematics over the bytes being read.

/// Big-endian 16-bit value at `p`.
pub open spec fn be16(s: Seq<u8>, p: int) -> int {
    s[p] as int * 256 + s[p + 1] as int
}

/// Big-endian 32-bit value at `p`.
pub open spec fn be32(s: Seq<u8>, p: int) -> int {
    be16(s, p) * 65536 + be16(s, p + 2)
}

/// The two's-complement reading of a 32-bit pattern.
pub open spec fn signed32(u: int) -> int {
    if u >= 0x8000_0000 { u - 0x1_0000_0000 } else { u }
}

/// The error met when `n` bytes are requested at `pos` of a `len`-byte input
/// that does not hold them.
pub open spec fn take_error(pos: int, n: int) -> Seq<char> {
    if pos + n > usize::MAX { "ABR size overflow"@ } else { "Truncated ABR data"@ }
}

/// Whether `n` bytes are available at `pos`.
pub open spec fn avail(s: Seq<u8>, pos: int, n: int) -> bool {
    pos + n <= s.len()
}

/// The name given to the `n`-th tip of a library when the file names none.
pub open spec fn numbered_name(label: Seq<char>, n: nat) -> Seq<char> {
    label + " \u{b7} "@ + decimal(n)
}

/// `s` without its trailing NUL characters.
pub open spec fn trim_trailing_nul(s: Seq<char>) -> Seq<char>
    decreases s.len(),
{
    if s.len() > 0 && s.last() == '\0' { trim_trailing_nul(s.drop_last()) } else { s }
}

/// The Unicode scalar encoded by a UTF-16 surrogate pair.
pub open spec fn surrogate_pair(high: u16, low: u16) -> char {
    (0x10000 + (high - 0xD800) * 0x400 + (low - 0xDC00)) as char
}

/// UTF-16 decoding in which each unpaired surrogate becomes U+FFFD.
pub open spec fn utf16_lossy(u: Seq<u16>) -> Seq<char>
    decreases u.len(),
{
    if u.len() == 0 {
        seq![]
    } else if 0xD800 <= u[0] < 0xDC00 && u.len() >= 2 && 0xDC00 <= u[1] < 0xE000 {
        seq![surrogate_pair(u[0], u[1])] + utf16_lossy(u.skip(2))
    } else if 0xD800 <= u[0] < 0xE000 {
        seq!['\u{FFFD}'] + utf16_lossy(u.skip(1))
    } else {
        seq![u[0] as char] + utf16_lossy(u.skip(1))
    }
}

/// Decode UTF-16 code units, replacing invalid data by U+FFFD.
/// Calls `String::from_utf16_lossy`, whose documentation promises exactly this
/// decoding; the contract claims the std decoder agrees with [`utf16_lossy`].
#[verifier::external_body]
pub(crate) fn decode_utf16_lossy(units: &[u16]) -> (chars: Vec<char>)
    ensures
        chars@ == utf16_lossy(units@),
{
    String::from_utf16_lossy(units).chars().collect()
}

// ---------------------------------------------------------------------------
// The sampled tip record.

/// The PackBits-compressed row at `pos` of `row`, appended to `acc`, which must
/// end up exactly `w` bytes long.
pub open spec fn rle_row(row: Seq<u8>, pos: int, w: int, acc: Seq<u8>) -> Result<Seq<u8>, Seq<char>>
    decreases row.len() - pos,
{
    if pos < 0 || pos >= row.len() {
        if acc.len() == w { Ok(acc) } else { Err("Incomplete ABR RLE row"@) }
    } else {
        let code = row[pos] as int;
        if code < 128 {
            let count = code + 1;
            if acc.len() + count > w {
                Err("Invalid ABR RLE row"@)
            } else if !avail(row, pos + 1, count) {
                Err(take_error(pos + 1, count))
            } else {
                rle_row(row, pos + 1 + count, w, acc + row.subrange(pos + 1, pos + 1 + count))
            }
        } else if code == 128 {
            rle_row(row, pos + 1, w, acc)
        } else {
            let count = 257 - code;
            if acc.len() + count > w {
                Err("Invalid ABR RLE run"@)
            } else if !avail(row, pos + 1, 1) {
                Err(take_error(pos + 1, 1))
            } else {
                rle_row(row, pos + 2, w, acc + Seq::new(count as nat, |_k: int| row[pos + 1]))
            }
        }
    }
}

/// `acc` followed by the `count` big-endian 16-bit values at `pos`, and the
/// position after them.
pub open spec fn read_u16s(s: Seq<u8>, pos: int, count: nat, acc: Seq<int>) -> Result<(Seq<int>, int), Seq<char>>
    decreases count,
{
    if count == 0 {
        Ok((acc, pos))
    } else if !avail(s, pos, 2) {
        Err(take_error(pos, 2))
    } else {
        read_u16s(s, pos + 2, (count - 1) as nat, acc.push(be16(s, pos)))
    }
}

proof fn lemma_read_u16s_len(s: Seq<u8>, pos: int, count: nat, acc: Seq<int>)
    ensures
        read_u16s(s, pos, count, acc) matches Ok((l, _)) ==> l.len() == acc.len() + count,
    decreases count,
{
    if count > 0 && avail(s, pos, 2) {
        lemma_read_u16s_len(s, pos + 2, (count - 1) as nat, acc.push(be16(s, pos)));
    }
}

proof fn lemma_read_u16s_range(s: Seq<u8>, pos: int, count: nat, acc: Seq<int>)
    requires
        forall|i: int| 0 <= i < acc.len() ==> 0 <= #[trigger] acc[i] < 65536,
    ensures
        read_u16s(s, pos, count, acc) matches Ok((l, _)) ==> forall|i: int| 0 <= i < l.len() ==> 0 <= #[trigger] l[i] < 65536,
    decreases count,
{
    if count > 0 && avail(s, pos, 2) {
        let next = acc.push(be16(s, pos));
        assert forall|i: int| 0 <= i < next.len() implies 0 <= #[trigger] next[i] < 65536 by {
            if i == acc.len() {
                assert(0 <= be16(s, pos) < 65536);
            }
        }
        lemma_read_u16s_range(s, pos + 2, (count - 1) as nat, next);
    }
}

/// Rows of `w` pixels whose compressed lengths are `lengths`, stored from `pos`.
pub open spec fn rle_rows(s: Seq<u8>, pos: int, lengths: Seq<int>, w: int, acc: Seq<u8>) -> Result<Seq<u8>, Seq<char>>
    decreases lengths.len(),
{
    if lengths.len() == 0 {
        Ok(acc)
    } else if !avail(s, pos, lengths[0]) {
        Err(take_error(pos, lengths[0]))
    } else {
        match rle_row(s.subrange(pos, pos + lengths[0]), 0, w, seq![]) {
            Ok(row) => rle_rows(s, pos + lengths[0], lengths.drop_first(), w, acc + row),
            Err(e) => Err(e),
        }
    }
}

/// Whether the tip bounds give a width and height the reader accepts.
pub open spec fn tip_size_ok(w: int, h: int) -> bool {
    0 < w <= 8192 && 0 < h <= 8192 && w * h <= 16_777_216
}

/// The sampled tip stored at `pos` of `s`, named `name`, drawing on a decoded
/// byte `budget`; with the budget that remains.
#[verifier::opaque]
pub open spec fn sampled_tip(s: Seq<u8>, pos: int, name: Seq<char>, budget: int) -> Result<(TipView, int), Seq<char>> {
    if !avail(s, pos, 4) { Err(take_error(pos, 4)) }
    else if !avail(s, pos + 4, 4) { Err(take_error(pos + 4, 4)) }
    else if !avail(s, pos + 8, 4) { Err(take_error(pos + 8, 4)) }
    else if !avail(s, pos + 12, 4) { Err(take_error(pos + 12, 4)) }
    else {
        let top = signed32(be32(s, pos));
        let left = signed32(be32(s, pos + 4));
        let bottom = signed32(be32(s, pos + 8));
        let right = signed32(be32(s, pos + 12));
        let w = right - left;
        let h = bottom - top;
        if !tip_size_ok(w, h) {
            Err("Brush dimensions exceed the supported limit"@)
        } else if !avail(s, pos + 16, 2) {
            Err(take_error(pos + 16, 2))
        } else if be16(s, pos + 16) != 8 {
            Err("This ABR tip is not 8-bit; use an 8-bit sampled brush"@)
        } else if w * h > budget {
            Err("ABR brush library exceeds the 64 MB decoded limit"@)
        } else if !avail(s, pos + 18, 1) {
            Err(take_error(pos + 18, 1))
        } else {
            let n = w * h;
            let compression = s[pos + 18];
            let mask: Result<Seq<u8>, Seq<char>> = if compression == 0 {
                if avail(s, pos + 19, n) { Ok(s.subrange(pos + 19, pos + 19 + n)) } else { Err(take_error(pos + 19, n)) }
            } else if compression == 1 {
                match read_u16s(s, pos + 19, h as nat, seq![]) {
                    Ok((lengths, start)) => rle_rows(s, start, lengths, w, seq![]),
                    Err(e) => Err(e),
                }
            } else {
                Err("Unsupported ABR compression"@)
            };
            match mask {
                Ok(m) => Ok((TipView { name, width: w as nat, height: h as nat, mask: m }, budget - n)),
                Err(e) => Err(e),
            }
        }
    }
}

/// The decoded byte budget left after reading the tip stored at `pos` of
/// `s`, whether or not it reads: its pixel count is drawn once its header,
/// size, depth and budget checks pass, and is not given back on a later
/// refusal; a refusal before that leaves `budget` as it was.
pub open spec fn tip_budget_after(s: Seq<u8>, pos: int, budget: int) -> int {
    if !avail(s, pos, 16) {
        budget
    } else {
        let w = signed32(be32(s, pos + 12)) - signed32(be32(s, pos + 4));
        let h = signed32(be32(s, pos + 8)) - signed32(be32(s, pos));
        if tip_size_ok(w, h) && avail(s, pos + 16, 2) && be16(s, pos + 16) == 8 && w * h <= budget {
            budget - w * h
        } else {
            budget
        }
    }
}

// ---------------------------------------------------------------------------
// Libraries of tips.

/// The decoded-size allowance of one library, 64 MiB.
pub open spec fn library_budget() -> int {
    67_108_864int
}

/// The most tips one library may hold.
pub open spec fn max_tips() -> int {
    512int
}

pub open spec fn too_many_tips() -> Seq<char> {
    "ABR has more than 512 sampled tips"@
}

/// `8BIM`, the signature of every modern section.
pub open spec fn signature_8bim() -> Seq<u8> {
    seq![0x38u8, 0x42u8, 0x49u8, 0x4Du8]
}

/// `samp`, the tag of the section holding sampled tips.
pub open spec fn tag_samp() -> Seq<u8> {
    seq![0x73u8, 0x61u8, 0x6Du8, 0x70u8]
}

/// The padding that brings `len` to a multiple of four.
pub open spec fn pad4(len: int) -> int {
    (4 - len % 4) % 4
}

/// The tip of one legacy (v1/v2) brush record `rec`, named `fallback` unless a
/// v2 record carries a non-empty name of its own.
pub open spec fn legacy_tip(rec: Seq<u8>, version: int, fallback: Seq<char>, budget: int) -> Result<(TipView, int), Seq<char>> {
    if !avail(rec, 0, 6) {
        Err(take_error(0, 6))
    } else if version == 2 {
        if !avail(rec, 6, 4) {
            Err(take_error(6, 4))
        } else if be32(rec, 6) > 4096 {
            Err("ABR name is too long"@)
        } else {
            match read_u16s(rec, 10, be32(rec, 6) as nat, seq![]) {
                Ok((units, p)) => {
                    let text = trim_trailing_nul(utf16_lossy(units.map_values(|u: int| u as u16)));
                    let name = if text.len() == 0 { fallback } else { text };
                    if !avail(rec, p, 9) { Err(take_error(p, 9)) } else { sampled_tip(rec, p + 9, name, budget) }
                },
                Err(e) => Err(e),
            }
        }
    } else if !avail(rec, 6, 9) {
        Err(take_error(6, 9))
    } else {
        sampled_tip(rec, 15, fallback, budget)
    }
}

/// The tips of the legacy records `i..count` stored from `pos`, after `tips`.
pub open spec fn legacy_records(s: Seq<u8>, pos: int, version: int, count: int, i: int, label: Seq<char>, tips: Seq<TipView>, budget: int) -> Result<Seq<TipView>, Seq<char>>
    decreases count - i,
{
    if i >= count {
        Ok(tips)
    } else if !avail(s, pos, 2) {
        Err(take_error(pos, 2))
    } else if !avail(s, pos + 2, 4) {
        Err(take_error(pos + 2, 4))
    } else if !avail(s, pos + 6, be32(s, pos + 2)) {
        Err(take_error(pos + 6, be32(s, pos + 2)))
    } else {
        let len = be32(s, pos + 2);
        let next = pos + 6 + len;
        if be16(s, pos) != 2 {
            legacy_records(s, next, version, count, i + 1, label, tips, budget)
        } else {
            match legacy_tip(s.subrange(pos + 6, next), version, numbered_name(label, (i + 1) as nat), budget) {
                Ok((tip, rest)) => if tips.len() + 1 > max_tips() {
                    Err(too_many_tips())
                } else {
                    legacy_records(s, next, version, count, i + 1, label, tips.push(tip), rest)
                },
                Err(e) => Err(e),
            }
        }
    }
}

/// In a legacy (v1/v2) library, a complete record whose brush type is not 2
/// (a computed brush, which carries no sampled tip) adds no tip and neither
/// stops nor fails the reading: the tips are those of the records after it,
/// which keep their numbers.
pub proof fn law_legacy_computed_record_skipped(s: Seq<u8>, pos: int, version: int, count: int, i: int,
    label: Seq<char>, tips: Seq<TipView>, budget: int)
    requires
        0 <= pos,
        i < count,
        pos + 6 <= s.len(),
        pos + 6 + be32(s, pos + 2) <= s.len(),
        be16(s, pos) != 2,
    ensures
        legacy_records(s, pos, version, count, i, label, tips, budget)
            == legacy_records(s, pos + 6 + be32(s, pos + 2), version, count, i + 1, label, tips, budget),
{
}

/// In a legacy library, a complete record of brush type 2 adds its sampled
/// tip, named after the library and the record's number unless the record
/// names it, after the tips before it.
pub proof fn law_legacy_sampled_record_read(s: Seq<u8>, pos: int, version: int, count: int, i: int,
    label: Seq<char>, tips: Seq<TipView>, budget: int)
    requires
        0 <= pos,
        i < count,
        pos + 6 <= s.len(),
        pos + 6 + be32(s, pos + 2) <= s.len(),
        be16(s, pos) == 2,
        tips.len() < max_tips(),
        legacy_tip(s.subrange(pos + 6, pos + 6 + be32(s, pos + 2)), version, numbered_name(label, (i + 1) as nat), budget) is Ok,
    ensures
        ({
            let (tip, rest) = legacy_tip(s.subrange(pos + 6, pos + 6 + be32(s, pos + 2)), version,
                numbered_name(label, (i + 1) as nat), budget)->Ok_0;
            legacy_records(s, pos, version, count, i, label, tips, budget)
                == legacy_records(s, pos + 6 + be32(s, pos + 2), version, count, i + 1, label, tips.push(tip), rest)
        }),
{
}

/// One sample record at `pos` of a `samp` section `b`: the position after it,
/// and the tips and budget after reading it.
pub open spec fn sample_record(b: Seq<u8>, pos: int, subtype: int, label: Seq<char>, tips: Seq<TipView>, budget: int) -> Result<(int, Seq<TipView>, int), Seq<char>> {
    if !avail(b, pos, 4) {
        Err(take_error(pos, 4))
    } else if !avail(b, pos + 4, be32(b, pos)) {
        Err(take_error(pos + 4, be32(b, pos)))
    } else {
        let size = be32(b, pos);
        let rec = b.subrange(pos + 4, pos + 4 + size);
        let skip = if subtype == 1 { 47int } else { 301int };
        let tip = if !avail(rec, 0, skip) {
            Err(take_error(0, skip))
        } else {
            sampled_tip(rec, skip, numbered_name(label, tips.len() + 1), budget)
        };
        match tip {
            Ok((t, rest)) => if tips.len() + 1 > max_tips() {
                Err(too_many_tips())
            } else if !avail(b, pos + 4 + size, pad4(size)) {
                Err(take_error(pos + 4 + size, pad4(size)))
            } else {
                Ok((pos + 4 + size + pad4(size), tips.push(t), rest))
            },
            Err(e) => Err(e),
        }
    }
}

/// The tips of the sample records of a `samp` section `b` from `pos`.
pub open spec fn sample_records(b: Seq<u8>, pos: int, subtype: int, label: Seq<char>, tips: Seq<TipView>, budget: int) -> Result<(Seq<TipView>, int), Seq<char>>
    decreases b.len() - pos,
{
    if pos < 0 || pos >= b.len() {
        Ok((tips, budget))
    } else {
        match sample_record(b, pos, subtype, label, tips, budget) {
            Ok((next, more, rest)) => if next <= pos {
                Ok((more, rest))
            } else {
                sample_records(b, next, subtype, label, more, rest)
            },
            Err(e) => Err(e),
        }
    }
}

/// One modern section at `pos`: the position after it, and the tips and
/// budget after reading it.
pub open spec fn modern_section(s: Seq<u8>, pos: int, subtype: int, label: Seq<char>, tips: Seq<TipView>, budget: int) -> Result<(int, Seq<TipView>, int), Seq<char>> {
    if !avail(s, pos, 4) {
        Err(take_error(pos, 4))
    } else if s.subrange(pos, pos + 4) != signature_8bim() {
        Err("Invalid ABR section signature"@)
    } else if !avail(s, pos + 4, 4) {
        Err(take_error(pos + 4, 4))
    } else if !avail(s, pos + 8, 4) {
        Err(take_error(pos + 8, 4))
    } else if !avail(s, pos + 12, be32(s, pos + 8)) {
        Err(take_error(pos + 12, be32(s, pos + 8)))
    } else if !avail(s, pos + 12 + be32(s, pos + 8), pad4(be32(s, pos + 8))) {
        Err(take_error(pos + 12 + be32(s, pos + 8), pad4(be32(s, pos + 8))))
    } else {
        let len = be32(s, pos + 8);
        let next = pos + 12 + len + pad4(len);
        if s.subrange(pos + 4, pos + 8) != tag_samp() {
            Ok((next, tips, budget))
        } else {
            match sample_records(s.subrange(pos + 12, pos + 12 + len), 0, subtype, label, tips, budget) {
                Ok((more, rest)) => Ok((next, more, rest)),
                Err(e) => Err(e),
            }
        }
    }
}

/// The tips of the modern (v6/v10) sections stored from `pos`, after `tips`.
pub open spec fn modern_sections(s: Seq<u8>, pos: int, subtype: int, label: Seq<char>, tips: Seq<TipView>, budget: int) -> Result<Seq<TipView>, Seq<char>>
    decreases s.len() - pos,
{
    if pos < 0 || pos >= s.len() {
        Ok(tips)
    } else {
        match modern_section(s, pos, subtype, label, tips, budget) {
            Ok((next, more, rest)) => if next <= pos {
                Ok(more)
            } else {
                modern_sections(s, next, subtype, label, more, rest)
            },
            Err(e) => Err(e),
        }
    }
}

/// The message refusing an ABR version this reader does not support.
pub open spec fn unsupported_version(version: int, subtype: int) -> Seq<char> {
    "Unsupported ABR version "@ + decimal(version as nat) + "."@ + decimal(subtype as nat)
        + ". Supported sampled tips: v1, v2, v6 and v10."@
}

/// The sampled tips of the ABR brush library `bytes`, labelled `label`.
pub open spec fn abr_tips(bytes: Seq<u8>, label: Seq<char>) -> Result<Seq<TipView>, Seq<char>> {
    if bytes.len() > 128 * 1024 * 1024 {
        Err("ABR file exceeds 128 MB"@)
    } else if !avail(bytes, 0, 2) {
        Err(take_error(0, 2))
    } else if !avail(bytes, 2, 2) {
        Err(take_error(2, 2))
    } else {
        let version = be16(bytes, 0);
        let subtype = be16(bytes, 2);
        let parsed = if version == 1 || version == 2 {
            legacy_records(bytes, 4, version, subtype, 0, label, seq![], library_budget())
        } else if (version == 6 || version == 10) && (subtype == 1 || subtype == 2) {
            modern_sections(bytes, 4, subtype, label, seq![], library_budget())
        } else {
            Err(unsupported_version(version, subtype))
        };
        match parsed {
            Ok(tips) => if tips.len() == 0 {
                Err("No supported sampled tips found. Computed Photoshop brushes are not imported."@)
            } else {
                Ok(tips)
            },
            Err(e) => Err(e),
        }
    }
}

struct Reader<'a> {
    bytes: &'a [u8],
    pos: usize,
}

impl<'a> Reader<'a> {
    spec fn wf(&self) -> bool {
        self.pos <= self.bytes@.len()
    }

    fn new(bytes: &'a [u8]) -> (r: Self)
        ensures
            r.bytes@ == bytes@,
            r.pos == 0,
    {
        Reader { bytes, pos: 0 }
    }

    fn take(&mut self, n: usize) -> (res: Result<&'a [u8], String>)
        requires
            old(self).wf(),
        ensures
            final(self).wf(),
            final(self).bytes@ == old(self).bytes@,
            avail(old(self).bytes@, old(self).pos as int, n as int) ==> {
                &&& res matches Ok(d)
                &&& d@ == old(self).bytes@.subrange(old(self).pos as int, old(self).pos + n)
                &&& final(self).pos == old(self).pos + n
            },
            !avail(old(self).bytes@, old(self).pos as int, n as int) ==> {
                &&& res matches Err(e)
                &&& e@ == take_error(old(self).pos as int, n as int)
            },
    {
        let len = self.bytes.len();
        let end = match self.pos.checked_add(n) {
            Some(end) => end,
            None => return Err(String::from_str("ABR size overflow")),
        };
        if end > len {
            return Err(String::from_str("Truncated ABR data"));
        }
        let data = &self.bytes[self.pos..end];
        self.pos = end;
        Ok(data)
    }

    fn u8(&mut self) -> (res: Result<u8, String>)
        requires
            old(self).wf(),
        ensures
            final(self).wf(),
            final(self).bytes@ == old(self).bytes@,
            avail(old(self).bytes@, old(self).pos as int, 1) ==> {
                &&& res matches Ok(v)
                &&& v == old(self).bytes@[old(self).pos as int]
                &&& final(self).pos == old(self).pos + 1
            },
            !avail(old(self).bytes@, old(self).pos as int, 1) ==> {
                &&& res matches Err(e)
                &&& e@ == take_error(old(self).pos as int, 1)
            },
    {
        let d = self.take(1)?;
        Ok(d[0])
    }

    fn u16(&mut self) -> (res: Result<u16, String>)
        requires
            old(self).wf(),
        ensures
            final(self).wf(),
            final(self).bytes@ == old(self).bytes@,
            avail(old(self).bytes@, old(self).pos as int, 2) ==> {
                &&& res matches Ok(v)
                &&& v == be16(old(self).bytes@, old(self).pos as int)
                &&& final(self).pos == old(self).pos + 2
            },
            !avail(old(self).bytes@, old(self).pos as int, 2) ==> {
                &&& res matches Err(e)
                &&& e@ == take_error(old(self).pos as int, 2)
            },
    {
        let d = self.take(2)?;
        Ok(d[0] as u16 * 256 + d[1] as u16)
    }

    fn u32(&mut self) -> (res: Result<u32, String>)
        requires
            old(self).wf(),
        ensures
            final(self).wf(),
            final(self).bytes@ == old(self).bytes@,
            avail(old(self).bytes@, old(self).pos as int, 4) ==> {
                &&& res matches Ok(v)
                &&& v == be32(old(self).bytes@, old(self).pos as int)
                &&& final(self).pos == old(self).pos + 4
            },
            !avail(old(self).bytes@, old(self).pos as int, 4) ==> {
                &&& res matches Err(e)
                &&& e@ == take_error(old(self).pos as int, 4)
            },
    {
        let d = self.take(4)?;
        Ok(((d[0] as u32 * 256 + d[1] as u32) * 256 + d[2] as u32) * 256 + d[3] as u32)
    }

    fn i32(&mut self) -> (res: Result<i32, String>)
        requires
            old(self).wf(),
        ensures
            final(self).wf(),
            final(self).bytes@ == old(self).bytes@,
            avail(old(self).bytes@, old(self).pos as int, 4) ==> {
                &&& res matches Ok(v)
                &&& v == signed32(be32(old(self).bytes@, old(self).pos as int))
                &&& final(self).pos == old(self).pos + 4
            },
            !avail(old(self).bytes@, old(self).pos as int, 4) ==> {
                &&& res matches Err(e)
                &&& e@ == take_error(old(self).pos as int, 4)
            },
    {
        let u = self.u32()?;
        let v: i32 = if u >= 0x8000_0000 { (u - 0x8000_0000) as i32 - 0x4000_0000 - 0x4000_0000 } else { u as i32 };
        Ok(v)
    }

    fn left(&self) -> (n: usize)
        requires
            self.wf(),
        ensures
            n == self.bytes@.len() - self.pos,
    {
        self.bytes.len() - self.pos
    }
}


/// Decode one PackBits row of exactly `w` pixels from `row`, appending it to
/// `pixels`.
fn rle_row_into(row: &[u8], w: usize, pixels: &mut Vec<u8>) -> (res: Result<(), String>)
    requires
        w <= 8192,
        old(pixels)@.len() + w <= usize::MAX,
    ensures
        match rle_row(row@, 0, w as int, seq![]) {
            Ok(decoded) => res is Ok && final(pixels)@ == old(pixels)@ + decoded
                && final(pixels)@.len() == old(pixels)@.len() + w,
            Err(e) => res matches Err(x) && x@ == e,
        },
{
    let mut r = Reader::new(row);
    let start = pixels.len();
    let ghost base = pixels@;
    assert(pixels@.subrange(start as int, pixels@.len() as int) =~= seq![]);
    while r.left() > 0
        invariant
            r.wf(),
            r.bytes@ == row@,
            w <= 8192,
            start + w <= usize::MAX,
            start == base.len(),
            pixels@.len() >= start,
            pixels@.subrange(0, start as int) == base,
            pixels@.len() - start <= w,
            rle_row(row@, 0, w as int, seq![]) == rle_row(row@, r.pos as int, w as int, pixels@.subrange(start as int, pixels@.len() as int)),
        decreases row@.len() - r.pos,
    {
        let ghost p = r.pos as int;
        let ghost acc = pixels@.subrange(start as int, pixels@.len() as int);
        let code = r.u8()?;
        if code < 128 {
            let count = code as usize + 1;
            if pixels.len() - start + count > w {
                return Err(String::from_str("Invalid ABR RLE row"));
            }
            let data = r.take(count)?;
            pixels.extend_from_slice(data);
            proof {
                assert(pixels@ =~= base + acc + row@.subrange(p + 1, p + 1 + count));
                assert(pixels@.subrange(start as int, pixels@.len() as int) =~= acc + row@.subrange(p + 1, p + 1 + count));
                assert(pixels@.subrange(0, start as int) =~= base);
            }
        } else if code == 128 {
        } else {
            let count = 257 - code as usize;
            if pixels.len() - start + count > w {
                return Err(String::from_str("Invalid ABR RLE run"));
            }
            let v = r.u8()?;
            let ghost before = pixels@;
            let target = pixels.len() + count;
            pixels.resize(target, v);
            proof {
                let run = Seq::new(count as nat, |_k: int| row@[p + 1]);
                assert forall|k: int| start <= k < pixels@.len() implies #[trigger] pixels@[k] == (acc + run)[k - start] by {
                    if k >= start + acc.len() {
                        assert(cloned::<u8>(v, pixels@[k]));
                    } else {
                        assert(pixels@.subrange(0, start + acc.len()) =~= before);
                        assert(pixels@[k] == pixels@.subrange(0, start + acc.len())[k]);
                    }
                }
                assert(pixels@.subrange(start as int, pixels@.len() as int) =~= acc + run);
                assert(pixels@.subrange(0, start as int) =~= base) by {
                    assert(pixels@.subrange(0, start + acc.len()) =~= before);
                }
            }
        }
    }
    if pixels.len() - start != w {
        return Err(String::from_str("Incomplete ABR RLE row"));
    }
    proof {
        assert(pixels@ =~= base + pixels@.subrange(start as int, pixels@.len() as int));
    }
    Ok(())
}


/// Read `count` big-endian 16-bit row lengths.
fn read_lengths(r: &mut Reader<'_>, count: usize) -> (res: Result<Vec<usize>, String>)
    requires
        old(r).wf(),
    ensures
        final(r).wf(),
        final(r).bytes@ == old(r).bytes@,
        match read_u16s(old(r).bytes@, old(r).pos as int, count as nat, seq![]) {
            Ok((lengths, end)) => res matches Ok(v) && v@.len() == lengths.len()
                && (forall|i: int| 0 <= i < lengths.len() ==> v@[i] == lengths[i])
                && final(r).pos == end,
            Err(e) => res matches Err(x) && x@ == e,
        },
{
    let ghost s = r.bytes@;
    let ghost start = r.pos as int;
    let mut lengths: Vec<usize> = Vec::new();
    let ghost mut acc: Seq<int> = seq![];
    let mut k: usize = 0;
    while k < count
        invariant
            r.wf(),
            r.bytes@ == s,
            s == old(r).bytes@,
            start == old(r).pos,
            k <= count,
            lengths@.len() == acc.len(),
            acc.len() == k,
            forall|i: int| 0 <= i < acc.len() ==> lengths@[i] == acc[i],
            read_u16s(s, start, count as nat, seq![]) == read_u16s(s, r.pos as int, (count - k) as nat, acc),
        decreases count - k,
    {
        let v = r.u16()?;
        lengths.push(v as usize);
        proof {
            acc = acc.push(v as int);
        }
        k = k + 1;
    }
    Ok(lengths)
}

/// Decode PackBits rows of `w` pixels whose compressed lengths are `lengths`.
fn rle_rows_into(r: &mut Reader<'_>, lengths: &Vec<usize>, w: usize) -> (res: Result<Vec<u8>, String>)
    requires
        old(r).wf(),
        w <= 8192,
        w * lengths@.len() <= 16_777_216,
    ensures
        match rle_rows(old(r).bytes@, old(r).pos as int, lengths@.map_values(|l: usize| l as int), w as int, seq![]) {
            Ok(m) => res matches Ok(v) && v@ == m,
            Err(e) => res matches Err(x) && x@ == e,
        },
{
    let ghost s = r.bytes@;
    let ghost lens = lengths@.map_values(|l: usize| l as int);
    let ghost rows_start = r.pos as int;
    let h = lengths.len();
    let mut pixels: Vec<u8> = Vec::new();
    let mut j: usize = 0;
    assert(lens.skip(0) =~= lens);
    while j < h
        invariant
            r.wf(),
            r.bytes@ == s,
            s == old(r).bytes@,
            rows_start == old(r).pos,
            j <= h,
            h == lengths@.len(),
            w <= 8192,
            w * h <= 16_777_216,
            lens == lengths@.map_values(|l: usize| l as int),
            pixels@.len() == j * w,
            rle_rows(s, rows_start, lens, w as int, seq![]) == rle_rows(s, r.pos as int, lens.skip(j as int), w as int, pixels@),
        decreases h - j,
    {
        proof {
            assert(pixels@.len() + w <= w * h) by (nonlinear_arith)
                requires pixels@.len() == j * w, j < h;
        }
        let len = lengths[j];
        let ghost rest = lens.skip(j as int);
        assert(rest[0] == len);
        let row = r.take(len)?;
        match rle_row_into(row, w, &mut pixels) {
            Ok(()) => {},
            Err(e) => return Err(e),
        }
        proof {
            assert(rest.drop_first() =~= lens.skip(j + 1));
            assert(pixels@.len() == (j + 1) * w) by (nonlinear_arith)
                requires pixels@.len() == j * w + w;
        }
        j = j + 1;
    }
    proof {
        assert(lens.skip(h as int) =~= seq![]);
    }
    Ok(pixels)
}

/// Read a sampled tip at the reader's position, drawing its decoded size from
/// `budget`.
fn sampled(r: &mut Reader<'_>, name: String, budget: &mut usize) -> (res: Result<Arc<BrushTip>, String>)
    requires
        old(r).wf(),
    ensures
        match sampled_tip(old(r).bytes@, old(r).pos as int, name@, *old(budget) as int) {
            Ok((tip, rest)) => res matches Ok(t) && t@ == tip && *final(budget) == rest,
            Err(e) => res matches Err(x) && x@ == e,
        },
        *final(budget) == tip_budget_after(old(r).bytes@, old(r).pos as int, *old(budget) as int),
{
    let ghost s = r.bytes@;
    let ghost pos = r.pos as int;
    reveal(sampled_tip);
    let top = r.i32()? as i64;
    let left = r.i32()? as i64;
    let bottom = r.i32()? as i64;
    let right = r.i32()? as i64;
    let w = right - left;
    let h = bottom - top;
    if w <= 0 || h <= 0 || w > 8192 || h > 8192 {
        return Err(String::from_str("Brush dimensions exceed the supported limit"));
    }
    assert(0 < w * h <= 8192 * 8192) by (nonlinear_arith)
        requires 0 < w <= 8192, 0 < h <= 8192;
    if w * h > 16_777_216 {
        return Err(String::from_str("Brush dimensions exceed the supported limit"));
    }
    if r.u16()? != 8 {
        return Err(String::from_str("This ABR tip is not 8-bit; use an 8-bit sampled brush"));
    }
    let w = w as usize;
    let h = h as usize;
    let n = w * h;
    if n > *budget {
        return Err(String::from_str("ABR brush library exceeds the 64 MB decoded limit"));
    }
    *budget = *budget - n;
    let compression = r.u8()?;
    let mask = if compression == 0 {
        let data = r.take(n)?;
        vstd::slice::slice_to_vec(data)
    } else if compression == 1 {
        let lengths = read_lengths(r, h)?;
        proof {
            lemma_read_u16s_len(s, pos + 19, h as nat, seq![]);
            let ghost lens = lengths@.map_values(|l: usize| l as int);
            match read_u16s(s, pos + 19, h as nat, seq![]) {
                Ok((l, st)) => { assert(lens =~= l); },
                Err(_) => {},
            }
        }
        rle_rows_into(r, &lengths, w)?
    } else {
        return Err(String::from_str("Unsupported ABR compression"));
    };
    Ok(Arc::new(BrushTip { name, width: w, height: h, mask }))
}


/// The views of a sequence of shared tips.
pub open spec fn tip_views(tips: Seq<Arc<BrushTip>>) -> Seq<TipView> {
    tips.map_values(|t: Arc<BrushTip>| t@)
}

proof fn lemma_tip_views_push(tips: Seq<Arc<BrushTip>>, t: Arc<BrushTip>)
    ensures
        tip_views(tips.push(t)) == tip_views(tips).push(t@),
{
    assert(tip_views(tips.push(t)) =~= tip_views(tips).push(t@));
}

/// Whether the four bytes `d` spell the tag `a b c e`.
fn is_tag(d: &[u8], a: u8, b: u8, c: u8, e: u8) -> (r: bool)
    requires
        d@.len() == 4,
    ensures
        r == (d@ == seq![a, b, c, e]),
{
    let r = d[0] == a && d[1] == b && d[2] == c && d[3] == e;
    if r {
        assert(d@ =~= seq![a, b, c, e]);
    } else {
        assert(d@ != seq![a, b, c, e]) by {
            if d@ == seq![a, b, c, e] {
                assert(d@[0] == seq![a, b, c, e][0]);
                assert(d@[1] == seq![a, b, c, e][1]);
                assert(d@[2] == seq![a, b, c, e][2]);
                assert(d@[3] == seq![a, b, c, e][3]);
            }
        }
    }
    r
}

/// `label · n`, the name of the `n`-th unnamed tip of a library.
fn numbered(label: &str, n: u64) -> (name: String)
    ensures
        name@ == numbered_name(label@, n as nat),
{
    let mut chars = str_chars(label);
    let mut sep = str_chars(" \u{b7} ");
    chars.append(&mut sep);
    push_decimal(&mut chars, n);
    string_from_chars(chars.as_slice())
}

/// `chars` without its trailing NUL characters, as a string.
fn trimmed_string(chars: &Vec<char>) -> (s: String)
    ensures
        s@ == trim_trailing_nul(chars@),
{
    let mut end = chars.len();
    assert(chars@.subrange(0, end as int) =~= chars@);
    while end > 0 && chars[end - 1] == '\0'
        invariant
            end <= chars@.len(),
            trim_trailing_nul(chars@) == trim_trailing_nul(chars@.subrange(0, end as int)),
        decreases end,
    {
        assert(chars@.subrange(0, end as int).drop_last() =~= chars@.subrange(0, end - 1));
        end = end - 1;
    }
    let kept = &chars.as_slice()[0..end];
    proof {
        let t = chars@.subrange(0, end as int);
        assert(!(t.len() > 0 && t.last() == '\0'));
    }
    string_from_chars(kept)
}

/// The tip of a legacy brush record.
fn legacy_record_tip(rec: &[u8], version: u16, fallback: String, budget: &mut usize) -> (res: Result<Arc<BrushTip>, String>)
    ensures
        match legacy_tip(rec@, version as int, fallback@, *old(budget) as int) {
            Ok((tip, rest)) => res matches Ok(t) && t@ == tip && *final(budget) == rest,
            Err(e) => res matches Err(x) && x@ == e,
        },
{
    let mut record = Reader::new(rec);
    record.take(6)?;
    let mut name = fallback;
    if version == 2 {
        let count = record.u32()? as usize;
        if count > 4096 {
            return Err(String::from_str("ABR name is too long"));
        }
        let ghost p = record.pos as int;
        let raw = read_lengths(&mut record, count)?;
        proof {
            lemma_read_u16s_len(rec@, 10, count as nat, seq![]);
            lemma_read_u16s_range(rec@, 10, count as nat, seq![]);
        }
        let ghost expected = match read_u16s(rec@, 10, count as nat, seq![]) {
            Ok((u, _)) => u,
            Err(_) => seq![],
        };
        let mut units: Vec<u16> = Vec::new();
        let mut k: usize = 0;
        while k < raw.len()
            invariant
                k <= raw@.len(),
                raw@.len() == expected.len(),
                forall|i: int| 0 <= i < expected.len() ==> raw@[i] == expected[i] && 0 <= expected[i] < 65536,
                units@.len() == k,
                forall|i: int| 0 <= i < k ==> units@[i] == expected[i] as u16,
            decreases raw@.len() - k,
        {
            units.push(raw[k] as u16);
            k = k + 1;
        }
        proof {
            assert(units@ =~= expected.map_values(|u: int| u as u16));
        }
        let text = trimmed_string(&decode_utf16_lossy(units.as_slice()));
        if !text.as_str().is_empty() {
            name = text;
        }
    }
    record.take(9)?;
    sampled(&mut record, name, budget)
}


/// Read one sample record, appending its tip.
fn read_sample(samples: &mut Reader<'_>, subtype: u16, label: &str, tips: &mut Vec<Arc<BrushTip>>, budget: &mut usize) -> (res: Result<(), String>)
    requires
        old(samples).wf(),
        old(tips)@.len() <= 512,
    ensures
        final(samples).wf(),
        final(samples).bytes@ == old(samples).bytes@,
        res is Ok ==> final(tips)@.len() <= 512,
        match sample_record(old(samples).bytes@, old(samples).pos as int, subtype as int, label@, tip_views(old(tips)@), *old(budget) as int) {
            Ok((next, more, rest)) => res is Ok && final(samples).pos == next && next > old(samples).pos
                && tip_views(final(tips)@) == more && *final(budget) == rest,
            Err(e) => res matches Err(x) && x@ == e,
        },
{
    let size = samples.u32()? as usize;
    let record_bytes = samples.take(size)?;
    let mut record = Reader::new(record_bytes);
    let skip: usize = if subtype == 1 { 47 } else { 301 };
    record.take(skip)?;
    let n = tips.len() as u64 + 1;
    let name = numbered(label, n);
    let tip = sampled(&mut record, name, budget)?;
    let ghost before = tips@;
    tips.push(tip);
    proof {
        lemma_tip_views_push(before, tip);
    }
    if tips.len() > 512 {
        return Err(String::from_str("ABR has more than 512 sampled tips"));
    }
    samples.take((4 - size % 4) % 4)?;
    Ok(())
}

/// Read the sample records of a `samp` section, appending their tips.
fn read_samples(block: &[u8], subtype: u16, label: &str, tips: &mut Vec<Arc<BrushTip>>, budget: &mut usize) -> (res: Result<(), String>)
    requires
        old(tips)@.len() <= 512,
    ensures
        res is Ok ==> final(tips)@.len() <= 512,
        match sample_records(block@, 0, subtype as int, label@, tip_views(old(tips)@), *old(budget) as int) {
            Ok((more, rest)) => res is Ok && tip_views(final(tips)@) == more && *final(budget) == rest,
            Err(e) => res matches Err(x) && x@ == e,
        },
{
    let mut samples = Reader::new(block);
    while samples.left() > 0
        invariant
            samples.wf(),
            samples.bytes@ == block@,
            tips@.len() <= 512,
            sample_records(block@, 0, subtype as int, label@, tip_views(old(tips)@), *old(budget) as int)
                == sample_records(block@, samples.pos as int, subtype as int, label@, tip_views(tips@), *budget as int),
        decreases block@.len() - samples.pos,
    {
        read_sample(&mut samples, subtype, label, tips, budget)?;
    }
    Ok(())
}

/// Read the legacy (v1/v2) records that follow the header.
fn read_legacy(r: &mut Reader<'_>, version: u16, subtype: u16, label: &str) -> (res: Result<Vec<Arc<BrushTip>>, String>)
    requires
        old(r).wf(),
        version == 1 || version == 2,
    ensures
        match legacy_records(old(r).bytes@, old(r).pos as int, version as int, subtype as int, 0, label@, seq![], library_budget()) {
            Ok(tips) => res matches Ok(v) && tip_views(v@) == tips,
            Err(e) => res matches Err(x) && x@ == e,
        },
{
    let ghost s = r.bytes@;
    let ghost start = r.pos as int;
    let mut tips: Vec<Arc<BrushTip>> = Vec::new();
    let mut budget: usize = 64 * 1024 * 1024;
    assert(tip_views(tips@) =~= seq![]);
    let mut i: u16 = 0;
    while i < subtype
        invariant
            r.wf(),
            r.bytes@ == s,
            s == old(r).bytes@,
            start == old(r).pos,
            version == 1 || version == 2,
            legacy_records(s, start, version as int, subtype as int, 0, label@, seq![], library_budget())
                == legacy_records(s, r.pos as int, version as int, subtype as int, i as int, label@, tip_views(tips@), budget as int),
        decreases subtype - i,
    {
        let kind = r.u16()?;
        let len = r.u32()? as usize;
        let record = r.take(len)?;
        if kind == 2 {
            let fallback = numbered(label, i as u64 + 1);
            let tip = legacy_record_tip(record, version, fallback, &mut budget)?;
            let ghost before = tips@;
            tips.push(tip);
            proof {
                lemma_tip_views_push(before, tip);
            }
            if tips.len() > 512 {
                return Err(String::from_str("ABR has more than 512 sampled tips"));
            }
        }
        i = i + 1;
    }
    Ok(tips)
}

/// Read one modern section, appending the tips of a `samp` section.
fn read_section(r: &mut Reader<'_>, subtype: u16, label: &str, tips: &mut Vec<Arc<BrushTip>>, budget: &mut usize) -> (res: Result<(), String>)
    requires
        old(r).wf(),
        old(tips)@.len() <= 512,
    ensures
        final(r).wf(),
        final(r).bytes@ == old(r).bytes@,
        res is Ok ==> final(tips)@.len() <= 512,
        match modern_section(old(r).bytes@, old(r).pos as int, subtype as int, label@, tip_views(old(tips)@), *old(budget) as int) {
            Ok((next, more, rest)) => res is Ok && final(r).pos == next && next > old(r).pos
                && tip_views(final(tips)@) == more && *final(budget) == rest,
            Err(e) => res matches Err(x) && x@ == e,
        },
{
    let signature = r.take(4)?;
    if !is_tag(signature, 0x38, 0x42, 0x49, 0x4D) {
        return Err(String::from_str("Invalid ABR section signature"));
    }
    let tag = r.take(4)?;
    let len = r.u32()? as usize;
    let block = r.take(len)?;
    r.take((4 - len % 4) % 4)?;
    if is_tag(tag, 0x73, 0x61, 0x6D, 0x70) {
        read_samples(block, subtype, label, tips, budget)?;
    }
    Ok(())
}

/// Read the modern (v6/v10) sections that follow the header.
fn read_modern(r: &mut Reader<'_>, subtype: u16, label: &str) -> (res: Result<Vec<Arc<BrushTip>>, String>)
    requires
        old(r).wf(),
    ensures
        match modern_sections(old(r).bytes@, old(r).pos as int, subtype as int, label@, seq![], library_budget()) {
            Ok(tips) => res matches Ok(v) && tip_views(v@) == tips,
            Err(e) => res matches Err(x) && x@ == e,
        },
{
    let ghost s = r.bytes@;
    let ghost start = r.pos as int;
    let mut tips: Vec<Arc<BrushTip>> = Vec::new();
    let mut budget: usize = 64 * 1024 * 1024;
    assert(tip_views(tips@) =~= seq![]);
    while r.left() > 0
        invariant
            r.wf(),
            r.bytes@ == s,
            s == old(r).bytes@,
            start == old(r).pos,
            tips@.len() <= 512,
            modern_sections(s, start, subtype as int, label@, seq![], library_budget())
                == modern_sections(s, r.pos as int, subtype as int, label@, tip_views(tips@), budget as int),
        decreases s.len() - r.pos,
    {
        read_section(r, subtype, label, &mut tips, &mut budget)?;
    }
    Ok(tips)
}

/// Read every 8-bit sampled tip of the ABR brush library `bytes` (versions 1,
/// 2, 6 and 10), naming unnamed tips after `label`.
pub fn import_abr(bytes: &[u8], label: &str) -> (res: Result<Vec<Arc<BrushTip>>, String>)
    ensures
        match abr_tips(bytes@, label@) {
            Ok(tips) => res matches Ok(v) && tip_views(v@) == tips,
            Err(e) => res matches Err(x) && x@ == e,
        },
{
    if bytes.len() > 128 * 1024 * 1024 {
        return Err(String::from_str("ABR file exceeds 128 MB"));
    }
    let mut r = Reader::new(bytes);
    let version = r.u16()?;
    let subtype = r.u16()?;
    let tips = if version == 1 || version == 2 {
        read_legacy(&mut r, version, subtype, label)?
    } else if (version == 6 || version == 10) && (subtype == 1 || subtype == 2) {
        read_modern(&mut r, subtype, label)?
    } else {
        let mut message = str_chars("Unsupported ABR version ");
        push_decimal(&mut message, version as u64);
        let mut dot = str_chars(".");
        message.append(&mut dot);
        push_decimal(&mut message, subtype as u64);
        let mut tail = str_chars(". Supported sampled tips: v1, v2, v6 and v10.");
        message.append(&mut tail);
        return Err(string_from_chars(message.as_slice()));
    };
    if tips.len() == 0 {
        return Err(String::from_str("No supported sampled tips found. Computed Photoshop brushes are not imported."));
    }
    Ok(tips)
}

} // verus!
