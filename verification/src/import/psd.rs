//! PSD version 1 reader: byte cursor, image-data decompression and prediction,
//! and Mac Roman names. Layout follows Adobe's Photoshop file-format notes.
pub mod layers;
pub mod descriptor;
pub mod stack;
pub mod vectors;

use vstd::prelude::*;
use crate::drawing::brush::{be16, be32, avail};
use crate::text::{str_chars, string_from_chars};
use std::io::Read;

verus! {

/// The error met when `n` bytes are requested at `pos` of input that does not
/// hold them.
pub open spec fn psd_take_error(pos: int, n: int) -> Seq<char> {
    if pos + n > usize::MAX { "Invalid PSD section size"@ } else { "Truncated PSD data"@ }
}

/// A read position inside PSD data.
pub struct Cursor<'a> {
    pub data: &'a [u8],
    pub pos: usize,
}

impl<'a> Cursor<'a> {
    pub open spec fn wf(&self) -> bool {
        self.pos <= self.data@.len()
    }

    pub fn new(data: &'a [u8]) -> (c: Self)
        ensures
            c.data@ == data@,
            c.pos == 0,
    {
        Cursor { data, pos: 0 }
    }

    pub fn take(&mut self, n: usize) -> (res: Result<&'a [u8], String>)
        requires
            old(self).wf(),
        ensures
            final(self).wf(),
            final(self).data@ == old(self).data@,
            avail(old(self).data@, old(self).pos as int, n as int) ==> {
                &&& res matches Ok(d)
                &&& d@ == old(self).data@.subrange(old(self).pos as int, old(self).pos + n)
                &&& final(self).pos == old(self).pos + n
            },
            !avail(old(self).data@, old(self).pos as int, n as int) ==> {
                &&& res matches Err(e)
                &&& e@ == psd_take_error(old(self).pos as int, n as int)
            },
    {
        let len = self.data.len();
        let end = match self.pos.checked_add(n) {
            Some(end) => end,
            None => return Err(String::from_str("Invalid PSD section size")),
        };
        if end > len {
            return Err(String::from_str("Truncated PSD data"));
        }
        let out = &self.data[self.pos..end];
        self.pos = end;
        Ok(out)
    }

    pub fn u16(&mut self) -> (res: Result<u16, String>)
        requires
            old(self).wf(),
        ensures
            final(self).wf(),
            final(self).data@ == old(self).data@,
            avail(old(self).data@, old(self).pos as int, 2) ==> {
                &&& res matches Ok(v)
                &&& v == be16(old(self).data@, old(self).pos as int)
                &&& final(self).pos == old(self).pos + 2
            },
            !avail(old(self).data@, old(self).pos as int, 2) ==> {
                &&& res matches Err(e)
                &&& e@ == psd_take_error(old(self).pos as int, 2)
            },
    {
        let d = self.take(2)?;
        Ok(d[0] as u16 * 256 + d[1] as u16)
    }

    pub fn u32(&mut self) -> (res: Result<u32, String>)
        requires
            old(self).wf(),
        ensures
            final(self).wf(),
            final(self).data@ == old(self).data@,
            avail(old(self).data@, old(self).pos as int, 4) ==> {
                &&& res matches Ok(v)
                &&& v == be32(old(self).data@, old(self).pos as int)
                &&& final(self).pos == old(self).pos + 4
            },
            !avail(old(self).data@, old(self).pos as int, 4) ==> {
                &&& res matches Err(e)
                &&& e@ == psd_take_error(old(self).pos as int, 4)
            },
    {
        let d = self.take(4)?;
        Ok(((d[0] as u32 * 256 + d[1] as u32) * 256 + d[2] as u32) * 256 + d[3] as u32)
    }

    /// A section prefixed by its 32-bit length.
    pub fn section(&mut self) -> (res: Result<&'a [u8], String>)
        requires
            old(self).wf(),
        ensures
            final(self).wf(),
            final(self).data@ == old(self).data@,
            match psd_section(old(self).data@, old(self).pos as int) {
                Ok((body, next)) => res matches Ok(d) && d@ == body && final(self).pos == next,
                Err(e) => res matches Err(x) && x@ == e,
            },
    {
        let n = self.u32()? as usize;
        self.take(n)
    }
}

/// The length-prefixed section at `pos` and the position after it.
pub open spec fn psd_section(s: Seq<u8>, pos: int) -> Result<(Seq<u8>, int), Seq<char>> {
    if !avail(s, pos, 4) {
        Err(psd_take_error(pos, 4))
    } else if !avail(s, pos + 4, be32(s, pos)) {
        Err(psd_take_error(pos + 4, be32(s, pos)))
    } else {
        Ok((s.subrange(pos + 4, pos + 4 + be32(s, pos)), pos + 4 + be32(s, pos)))
    }
}

// ---------------------------------------------------------------------------
// Mac Roman names.

/// The characters of Mac Roman bytes 128..=255.
pub open spec fn mac_roman_high() -> Seq<char> {
    seq![
        '\u{c4}', '\u{c5}', '\u{c7}', '\u{c9}', '\u{d1}', '\u{d6}', '\u{dc}', '\u{e1}', '\u{e0}',
        '\u{e2}', '\u{e4}', '\u{e3}', '\u{e5}', '\u{e7}', '\u{e9}', '\u{e8}', '\u{ea}', '\u{eb}',
        '\u{ed}', '\u{ec}', '\u{ee}', '\u{ef}', '\u{f1}', '\u{f3}', '\u{f2}', '\u{f4}', '\u{f6}',
        '\u{f5}', '\u{fa}', '\u{f9}', '\u{fb}', '\u{fc}', '\u{2020}', '\u{b0}', '\u{a2}', '\u{a3}',
        '\u{a7}', '\u{2022}', '\u{b6}', '\u{df}', '\u{ae}', '\u{a9}', '\u{2122}', '\u{b4}',
        '\u{a8}', '\u{2260}', '\u{c6}', '\u{d8}', '\u{221e}', '\u{b1}', '\u{2264}', '\u{2265}',
        '\u{a5}', '\u{b5}', '\u{2202}', '\u{2211}', '\u{220f}', '\u{3c0}', '\u{222b}', '\u{aa}',
        '\u{ba}', '\u{3a9}', '\u{e6}', '\u{f8}', '\u{bf}', '\u{a1}', '\u{ac}', '\u{221a}',
        '\u{192}', '\u{2248}', '\u{2206}', '\u{ab}', '\u{bb}', '\u{2026}', '\u{a0}', '\u{c0}',
        '\u{c3}', '\u{d5}', '\u{152}', '\u{153}', '\u{2013}', '\u{2014}', '\u{201c}', '\u{201d}',
        '\u{2018}', '\u{2019}', '\u{f7}', '\u{25ca}', '\u{ff}', '\u{178}', '\u{2044}', '\u{20ac}',
        '\u{2039}', '\u{203a}', '\u{fb01}', '\u{fb02}', '\u{2021}', '\u{b7}', '\u{201a}',
        '\u{201e}', '\u{2030}', '\u{c2}', '\u{ca}', '\u{c1}', '\u{cb}', '\u{c8}', '\u{cd}',
        '\u{ce}', '\u{cf}', '\u{cc}', '\u{d3}', '\u{d4}', '\u{f8ff}', '\u{d2}', '\u{da}', '\u{db}',
        '\u{d9}', '\u{131}', '\u{2c6}', '\u{2dc}', '\u{af}', '\u{2d8}', '\u{2d9}', '\u{2da}',
        '\u{b8}', '\u{2dd}', '\u{2db}', '\u{2c7}'
    ]
}

/// The Mac Roman character of byte `b`.
pub open spec fn mac_roman_char(b: u8) -> char {
    if b < 128 { b as char } else { mac_roman_high()[b - 128] }
}

/// Decode Mac Roman bytes, as Photoshop stores Pascal names.
pub fn mac_roman(data: &[u8]) -> (s: String)
    ensures
        s@ == data@.map_values(|b: u8| mac_roman_char(b)),
{
    let high: Vec<char> = vec![
        '\u{c4}', '\u{c5}', '\u{c7}', '\u{c9}', '\u{d1}', '\u{d6}', '\u{dc}', '\u{e1}', '\u{e0}',
        '\u{e2}', '\u{e4}', '\u{e3}', '\u{e5}', '\u{e7}', '\u{e9}', '\u{e8}', '\u{ea}', '\u{eb}',
        '\u{ed}', '\u{ec}', '\u{ee}', '\u{ef}', '\u{f1}', '\u{f3}', '\u{f2}', '\u{f4}', '\u{f6}',
        '\u{f5}', '\u{fa}', '\u{f9}', '\u{fb}', '\u{fc}', '\u{2020}', '\u{b0}', '\u{a2}', '\u{a3}',
        '\u{a7}', '\u{2022}', '\u{b6}', '\u{df}', '\u{ae}', '\u{a9}', '\u{2122}', '\u{b4}',
        '\u{a8}', '\u{2260}', '\u{c6}', '\u{d8}', '\u{221e}', '\u{b1}', '\u{2264}', '\u{2265}',
        '\u{a5}', '\u{b5}', '\u{2202}', '\u{2211}', '\u{220f}', '\u{3c0}', '\u{222b}', '\u{aa}',
        '\u{ba}', '\u{3a9}', '\u{e6}', '\u{f8}', '\u{bf}', '\u{a1}', '\u{ac}', '\u{221a}',
        '\u{192}', '\u{2248}', '\u{2206}', '\u{ab}', '\u{bb}', '\u{2026}', '\u{a0}', '\u{c0}',
        '\u{c3}', '\u{d5}', '\u{152}', '\u{153}', '\u{2013}', '\u{2014}', '\u{201c}', '\u{201d}',
        '\u{2018}', '\u{2019}', '\u{f7}', '\u{25ca}', '\u{ff}', '\u{178}', '\u{2044}', '\u{20ac}',
        '\u{2039}', '\u{203a}', '\u{fb01}', '\u{fb02}', '\u{2021}', '\u{b7}', '\u{201a}',
        '\u{201e}', '\u{2030}', '\u{c2}', '\u{ca}', '\u{c1}', '\u{cb}', '\u{c8}', '\u{cd}',
        '\u{ce}', '\u{cf}', '\u{cc}', '\u{d3}', '\u{d4}', '\u{f8ff}', '\u{d2}', '\u{da}', '\u{db}',
        '\u{d9}', '\u{131}', '\u{2c6}', '\u{2dc}', '\u{af}', '\u{2d8}', '\u{2d9}', '\u{2da}',
        '\u{b8}', '\u{2dd}', '\u{2db}', '\u{2c7}'
    ];
    assert(high@ =~= mac_roman_high());
    let mut out: Vec<char> = Vec::new();
    let mut i: usize = 0;
    while i < data.len()
        invariant
            i <= data@.len(),
            high@ == mac_roman_high(),
            out@ == data@.subrange(0, i as int).map_values(|b: u8| mac_roman_char(b)),
        decreases data@.len() - i,
    {
        let b = data[i];
        let c = if b < 128 { b as char } else { high[(b - 128) as usize] };
        out.push(c);
        assert(data@.subrange(0, i + 1).map_values(|b: u8| mac_roman_char(b))
            =~= data@.subrange(0, i as int).map_values(|b: u8| mac_roman_char(b)).push(c));
        i = i + 1;
    }
    assert(data@.subrange(0, data@.len() as int) =~= data@);
    string_from_chars(out.as_slice())
}


// ---------------------------------------------------------------------------
// Image data.

/// Bytes per row of `width` samples of `depth` bits.
pub open spec fn row_bytes(width: int, depth: int) -> int {
    (width * depth + 7) / 8
}

/// `acc` followed by `count` big-endian 16-bit values at `pos`, and the
/// position after them.
pub open spec fn psd_u16s(s: Seq<u8>, pos: int, count: nat, acc: Seq<int>) -> Result<(Seq<int>, int), Seq<char>>
    decreases count,
{
    if count == 0 {
        Ok((acc, pos))
    } else if !avail(s, pos, 2) {
        Err(psd_take_error(pos, 2))
    } else {
        psd_u16s(s, pos + 2, (count - 1) as nat, acc.push(be16(s, pos)))
    }
}

/// One PackBits row of exactly `rb` bytes decoded from `pos` of `row` after `acc`.
pub open spec fn psd_rle_row(row: Seq<u8>, pos: int, rb: int, acc: Seq<u8>) -> Result<Seq<u8>, Seq<char>>
    decreases row.len() - pos,
{
    if pos < 0 || pos >= row.len() {
        if acc.len() == rb { Ok(acc) } else { Err("Incomplete PSD RLE row."@) }
    } else {
        let code = row[pos] as int;
        let count = if code < 128 { code + 1 } else if code != 128 { 257 - code } else { 0 };
        if acc.len() + count > rb {
            Err("PSD RLE row exceeds its width."@)
        } else if code < 128 {
            if !avail(row, pos + 1, count) {
                Err(psd_take_error(pos + 1, count))
            } else {
                psd_rle_row(row, pos + 1 + count, rb, acc + row.subrange(pos + 1, pos + 1 + count))
            }
        } else if code != 128 {
            if !avail(row, pos + 1, 1) {
                Err(psd_take_error(pos + 1, 1))
            } else {
                psd_rle_row(row, pos + 2, rb, acc + Seq::new(count as nat, |_k: int| row[pos + 1]))
            }
        } else {
            psd_rle_row(row, pos + 1, rb, acc)
        }
    }
}

/// PackBits rows of `rb` bytes, with compressed lengths `lengths`, from `pos`.
pub open spec fn psd_rle_rows(s: Seq<u8>, pos: int, lengths: Seq<int>, rb: int, acc: Seq<u8>) -> Result<Seq<u8>, Seq<char>>
    decreases lengths.len(),
{
    if lengths.len() == 0 {
        Ok(acc)
    } else if !avail(s, pos, lengths[0]) {
        Err(psd_take_error(pos, lengths[0]))
    } else {
        match psd_rle_row(s.subrange(pos, pos + lengths[0]), 0, rb, seq![]) {
            Ok(row) => psd_rle_rows(s, pos + lengths[0], lengths.drop_first(), rb, acc + row),
            Err(e) => Err(e),
        }
    }
}

/// The outcome of reading to the end, through at most `limit` bytes, the zlib
/// stream that starts `data`: the decompressed bytes, or the reader's error text.
pub uninterp spec fn zlib_read_to_end(data: Seq<u8>, limit: nat) -> Result<Seq<u8>, Seq<char>>;

/// Decompress the zlib stream at the start of `data`, reading at most `limit`
/// bytes of output. Calls flate2's `ZlibDecoder` through `Read::take` and
/// `read_to_end`; the contract names the outcome and claims only that `take`
/// bounds the output by `limit`.
#[verifier::external_body]
fn zlib_read(data: &[u8], limit: u64) -> (res: Result<Vec<u8>, String>)
    ensures
        match (res, zlib_read_to_end(data@, limit as nat)) {
            (Ok(v), Ok(w)) => v@ == w && w.len() <= limit,
            (Err(e), Err(m)) => e@ == m,
            _ => false,
        },
{
    let mut output = Vec::new();
    match flate2::read::ZlibDecoder::new(data).take(limit).read_to_end(&mut output) {
        Ok(_) => Ok(output),
        Err(e) => Err(e.to_string()),
    }
}

/// The running byte sum of `row` through index `x`, modulo 256.
pub open spec fn running8(row: Seq<u8>, x: int) -> u8
    decreases x,
{
    if x <= 0 { row[0] } else { ((running8(row, x - 1) + row[x]) % 256) as u8 }
}

/// The running sum of the big-endian 16-bit samples of `row` through sample
/// `x`, modulo 65536.
pub open spec fn running16(row: Seq<u8>, x: int) -> int
    decreases x,
{
    if x <= 0 { be16(row, 0) } else { (running16(row, x - 1) + be16(row, 2 * x)) % 65536 }
}

/// A ZIP-with-prediction row after undoing the horizontal differencing.
pub open spec fn unpredicted_row(row: Seq<u8>, width: int, depth: int) -> Seq<u8> {
    if depth == 8 {
        Seq::new(row.len(), |i: int| running8(row, i))
    } else if depth == 16 {
        Seq::new(row.len(), |i: int|
            if i < 2 * width {
                if i % 2 == 0 { (running16(row, i / 2) / 256) as u8 } else { (running16(row, i / 2) % 256) as u8 }
            } else {
                row[i]
            })
    } else {
        Seq::new(row.len(), |i: int|
            if i < 4 * width { running8(row, (i % 4) * width + i / 4) } else { running8(row, i) })
    }
}

/// `raw` with every whole row of `rb` bytes unpredicted.
pub open spec fn unpredicted(raw: Seq<u8>, rb: int, width: int, depth: int) -> Seq<u8> {
    Seq::new(raw.len(), |i: int|
        if i < (raw.len() as int / rb) * rb {
            unpredicted_row(raw.subrange((i / rb) * rb, (i / rb) * rb + rb), width, depth)[i % rb]
        } else {
            raw[i]
        })
}

/// Whether `rb * height * channels` fits in memory indices.
pub open spec fn image_size_fits(rb: int, height: int, channels: int) -> bool {
    rb * height <= usize::MAX && rb * height * channels <= usize::MAX
}

/// The planar samples of `channels` channels of `width` × `height` samples of
/// `depth` bits, stored as PSD image data (compression word, then data).
pub open spec fn psd_channels(data: Seq<u8>, width: int, height: int, depth: int, channels: int) -> Result<Seq<u8>, Seq<char>> {
    if !avail(data, 0, 2) {
        Err(psd_take_error(0, 2))
    } else {
        let compression = be16(data, 0);
        let rb = row_bytes(width, depth);
        let expected = rb * height * channels;
        if !image_size_fits(rb, height, channels) {
            Err("PSD data is too large"@)
        } else {
            let raw: Result<Seq<u8>, Seq<char>> = if compression == 0 {
                if avail(data, 2, expected) { Ok(data.subrange(2, 2 + expected)) } else { Err(psd_take_error(2, expected)) }
            } else if compression == 1 {
                match psd_u16s(data, 2, (height * channels) as nat, seq![]) {
                    Ok((lengths, p)) => psd_rle_rows(data, p, lengths, rb, seq![]),
                    Err(e) => Err(e),
                }
            } else if compression == 2 || compression == 3 {
                zip_result(zlib_read_to_end(data.skip(2), (expected + 1) as nat), expected, rb, width, depth, compression == 3)
            } else {
                Err("Unsupported PSD image compression."@)
            };
            raw
        }
    }
}

/// The samples of a ZIP-compressed image of `expected` bytes in rows of
/// `rb` bytes, `width` samples of `depth` bits, from what its data inflated
/// to (`inflated`): refused when inflating failed or gave another size, and
/// with each whole row's differencing undone when `predicted`.
pub open spec fn zip_result(inflated: Result<Seq<u8>, Seq<char>>, expected: int, rb: int, width: int, depth: int, predicted: bool)
    -> Result<Seq<u8>, Seq<char>>
{
    match inflated {
        Err(e) => Err("Invalid PSD ZIP image: "@ + e),
        Ok(out) => if out.len() != expected {
            Err("PSD ZIP image size does not match its header."@)
        } else if !predicted || out.len() < rb {
            Ok(out)
        } else if depth != 8 && depth != 16 && depth != 32 {
            Err("PSD bitmap prediction is not supported."@)
        } else {
            Ok(unpredicted(out, rb, width, depth))
        },
    }
}

/// The mathematical content of a result of bytes or a message.
pub open spec fn bytes_result(r: Result<Vec<u8>, String>) -> Result<Seq<u8>, Seq<char>> {
    match r {
        Ok(v) => Ok(v@),
        Err(e) => Err(e@),
    }
}

/// The samples of a ZIP-compressed image of `expected` bytes, `width`
/// samples of `depth` bits per row, from what its data inflated to
/// (`inflated`), undoing the row differencing when `predicted`.
pub fn zip_samples(inflated: Result<Vec<u8>, String>, expected: usize, width: usize, depth: u16, predicted: bool)
    -> (res: Result<Vec<u8>, String>)
    requires
        width >= 1,
        width * depth + 7 <= usize::MAX,
    ensures
        match zip_result(bytes_result(inflated), expected as int, row_bytes(width as int, depth as int), width as int, depth as int, predicted) {
            Ok(samples) => res matches Ok(v) && v@ == samples,
            Err(e) => res matches Err(x) && x@ == e,
        },
{
    let mut raw = match inflated {
        Ok(output) => output,
        Err(e) => {
            let mut message = str_chars("Invalid PSD ZIP image: ");
            let mut detail = str_chars(e.as_str());
            message.append(&mut detail);
            return Err(string_from_chars(message.as_slice()));
        },
    };
    if raw.len() != expected {
        return Err(String::from_str("PSD ZIP image size does not match its header."));
    }
    let row_bytes = (width * depth as usize + 7) / 8;
    if predicted && raw.len() >= row_bytes {
        if depth == 8 || depth == 16 || depth == 32 {
            unpredict_rows(&mut raw, row_bytes, width, depth);
        } else {
            return Err(String::from_str("PSD bitmap prediction is not supported."));
        }
    }
    Ok(raw)
}


/// Replace `raw[o..o+n]` by its running byte sums.
fn running_sums_in_place(raw: &mut Vec<u8>, o: usize, n: usize)
    requires
        n >= 1,
        o + n <= old(raw)@.len(),
    ensures
        final(raw)@.len() == old(raw)@.len(),
        forall|i: int| 0 <= i < final(raw)@.len() && !(o <= i < o + n) ==> final(raw)@[i] == old(raw)@[i],
        forall|k: int| 0 <= k < n ==> final(raw)@[o + k] == #[trigger] running8(old(raw)@.subrange(o as int, o + n), k),
{
    let ghost row = raw@.subrange(o as int, o + n);
    let len = raw.len();
    let mut x: usize = 1;
    while x < n
        invariant
            1 <= x <= n,
            o + n <= raw@.len(),
            len == raw@.len(),
            raw@.len() == old(raw)@.len(),
            row == old(raw)@.subrange(o as int, o + n),
            forall|i: int| 0 <= i < raw@.len() && !(o <= i < o + n) ==> raw@[i] == old(raw)@[i],
            forall|k: int| 0 <= k < x ==> raw@[o + k] == #[trigger] running8(row, k),
            forall|k: int| x <= k < n ==> raw@[o + k] == #[trigger] row[k],
        decreases n - x,
    {
        let v = ((raw[o + x] as u16 + raw[o + x - 1] as u16) % 256) as u8;
        proof {
            assert(raw@[o + x - 1] == running8(row, x - 1));
            assert(raw@[o + x] == row[x as int]);
            assert(v == running8(row, x as int));
        }
        raw.set(o + x, v);
        x = x + 1;
    }
}

/// Undo the differencing of one ZIP-with-prediction row at `raw[o..o+rb]`.
fn unpredict_row_in_place(raw: &mut Vec<u8>, o: usize, rb: usize, width: usize, depth: u16)
    requires
        depth == 8 || depth == 16 || depth == 32,
        width >= 1,
        rb == row_bytes(width as int, depth as int),
        o + rb <= old(raw)@.len(),
    ensures
        final(raw)@ == old(raw)@.subrange(0, o as int)
            + unpredicted_row(old(raw)@.subrange(o as int, o + rb), width as int, depth as int)
            + old(raw)@.subrange(o + rb, old(raw)@.len() as int),
{
    let ghost row = raw@.subrange(o as int, o + rb);
    let ghost expected = unpredicted_row(row, width as int, depth as int);
    let len = raw.len();
    if depth == 8 {
        assert(rb == width);
        running_sums_in_place(raw, o, rb);
    } else if depth == 16 {
        assert(rb == 2 * width);
        let mut x: usize = 1;
        proof {
            assert(running16(row, 0) == be16(row, 0));
        }
        while x < width
            invariant
                1 <= x <= width,
                rb == 2 * width,
                o + rb <= raw@.len(),
                len == raw@.len(),
                raw@.len() == old(raw)@.len(),
                row == old(raw)@.subrange(o as int, o + rb),
                forall|i: int| 0 <= i < raw@.len() && !(o <= i < o + rb) ==> raw@[i] == old(raw)@[i],
                forall|k: int| 0 <= k < x ==> raw@[o + 2 * k] == #[trigger] running16(row, k) / 256
                    && raw@[o + 2 * k + 1] == running16(row, k) % 256,
                forall|k: int| 2 * x <= k < rb ==> raw@[o + k] == #[trigger] row[k],
            decreases width - x,
        {
            let previous = raw[o + 2 * x - 2] as u32 * 256 + raw[o + 2 * x - 1] as u32;
            let delta = raw[o + 2 * x] as u32 * 256 + raw[o + 2 * x + 1] as u32;
            let v = (previous + delta) % 65536;
            proof {
                assert(previous == running16(row, x - 1));
                assert(delta == be16(row, 2 * x));
            }
            raw.set(o + 2 * x, (v / 256) as u8);
            raw.set(o + 2 * x + 1, (v % 256) as u8);
            x = x + 1;
        }
    } else {
        proof {
            vstd::arithmetic::div_mod::lemma_fundamental_div_mod_converse(width * 32 + 7, 8, 4 * width as int, 7);
        }
        assert(rb == 4 * width);
        running_sums_in_place(raw, o, rb);
        let shuffled = vstd::slice::slice_to_vec(&raw.as_slice()[o..o + rb]);
        let mut i: usize = 0;
        while i < rb
            invariant
                i <= rb,
                rb == 4 * width,
                o + rb <= raw@.len(),
                len == raw@.len(),
                raw@.len() == old(raw)@.len(),
                shuffled@.len() == rb,
                forall|k: int| 0 <= k < rb ==> #[trigger] shuffled@[k] == running8(row, k),
                forall|j: int| 0 <= j < raw@.len() && !(o <= j < o + rb) ==> raw@[j] == old(raw)@[j],
                forall|k: int| 0 <= k < i ==> raw@[o + k] == #[trigger] running8(row, (k % 4) * width + k / 4),
            decreases rb - i,
        {
            proof {
                assert((i % 4) * width + i / 4 < rb) by (nonlinear_arith)
                    requires i < rb, rb == 4 * width, i % 4 <= 3, i / 4 < width, i / 4 >= 0, i % 4 >= 0;
            }
            let v = shuffled[(i % 4) * width + i / 4];
            raw.set(o + i, v);
            i = i + 1;
        }
    }
    assert(raw@ =~= old(raw)@.subrange(0, o as int) + expected + old(raw)@.subrange(o + rb, old(raw)@.len() as int));
}


/// Decode one PackBits row of exactly `rb` bytes from `row`, appending it to
/// `output`.
fn psd_rle_row_into(row: &[u8], rb: usize, output: &mut Vec<u8>) -> (res: Result<(), String>)
    requires
        old(output)@.len() + rb <= usize::MAX,
    ensures
        match psd_rle_row(row@, 0, rb as int, seq![]) {
            Ok(decoded) => res is Ok && final(output)@ == old(output)@ + decoded
                && final(output)@.len() == old(output)@.len() + rb,
            Err(e) => res matches Err(x) && x@ == e,
        },
{
    let mut r = Cursor::new(row);
    let start = output.len();
    let ghost base = output@;
    assert(output@.subrange(start as int, output@.len() as int) =~= seq![]);
    while r.pos < row.len()
        invariant
            r.wf(),
            r.data@ == row@,
            start + rb <= usize::MAX,
            start == base.len(),
            output@.len() >= start,
            output@.subrange(0, start as int) == base,
            output@.len() - start <= rb,
            psd_rle_row(row@, 0, rb as int, seq![]) == psd_rle_row(row@, r.pos as int, rb as int, output@.subrange(start as int, output@.len() as int)),
        decreases row@.len() - r.pos,
    {
        let ghost p = r.pos as int;
        let ghost acc = output@.subrange(start as int, output@.len() as int);
        let code = r.take(1)?[0];
        let count: usize = if code < 128 {
            code as usize + 1
        } else if code != 128 {
            257 - code as usize
        } else {
            0
        };
        if count > rb - (output.len() - start) {
            return Err(String::from_str("PSD RLE row exceeds its width."));
        }
        if code < 128 {
            let data = r.take(count)?;
            output.extend_from_slice(data);
            proof {
                assert(output@ =~= base + acc + row@.subrange(p + 1, p + 1 + count));
                assert(output@.subrange(start as int, output@.len() as int) =~= acc + row@.subrange(p + 1, p + 1 + count));
                assert(output@.subrange(0, start as int) =~= base);
            }
        } else if code != 128 {
            let value = r.take(1)?[0];
            let ghost before = output@;
            let target = output.len() + count;
            output.resize(target, value);
            proof {
                let run = Seq::new(count as nat, |_k: int| row@[p + 1]);
                assert forall|k: int| start <= k < output@.len() implies #[trigger] output@[k] == (acc + run)[k - start] by {
                    if k >= start + acc.len() {
                        assert(cloned::<u8>(value, output@[k]));
                    } else {
                        assert(output@.subrange(0, start + acc.len()) =~= before);
                        assert(output@[k] == output@.subrange(0, start + acc.len())[k]);
                    }
                }
                assert(output@.subrange(start as int, output@.len() as int) =~= acc + run);
                assert(output@.subrange(0, start as int) =~= base) by {
                    assert(output@.subrange(0, start + acc.len()) =~= before);
                }
            }
        }
    }
    if output.len() - start != rb {
        return Err(String::from_str("Incomplete PSD RLE row."));
    }
    proof {
        assert(output@ =~= base + output@.subrange(start as int, output@.len() as int));
    }
    Ok(())
}

/// Read `count` big-endian 16-bit row lengths.
pub(crate) fn psd_read_lengths(r: &mut Cursor<'_>, count: usize) -> (res: Result<Vec<usize>, String>)
    requires
        old(r).wf(),
    ensures
        final(r).wf(),
        final(r).data@ == old(r).data@,
        match psd_u16s(old(r).data@, old(r).pos as int, count as nat, seq![]) {
            Ok((lengths, end)) => res matches Ok(v) && v@.len() == lengths.len()
                && (forall|i: int| 0 <= i < lengths.len() ==> v@[i] == lengths[i])
                && final(r).pos == end,
            Err(e) => res matches Err(x) && x@ == e,
        },
{
    let ghost s = r.data@;
    let ghost start = r.pos as int;
    let mut lengths: Vec<usize> = Vec::new();
    let ghost mut acc: Seq<int> = seq![];
    let mut k: usize = 0;
    while k < count
        invariant
            r.wf(),
            r.data@ == s,
            s == old(r).data@,
            start == old(r).pos,
            k <= count,
            lengths@.len() == acc.len(),
            acc.len() == k,
            forall|i: int| 0 <= i < acc.len() ==> lengths@[i] == acc[i],
            psd_u16s(s, start, count as nat, seq![]) == psd_u16s(s, r.pos as int, (count - k) as nat, acc),
        decreases count - k,
    {
        let v = r.u16()?;
        lengths.push(v as usize);
        proof {
            acc = acc.push(v as int);
        }
        k = k + 1;
    }
    Ok(lengths)
}

pub(crate) proof fn lemma_psd_u16s_len(s: Seq<u8>, pos: int, count: nat, acc: Seq<int>)
    ensures
        psd_u16s(s, pos, count, acc) matches Ok((l, _)) ==> l.len() == acc.len() + count,
    decreases count,
{
    if count > 0 && avail(s, pos, 2) {
        lemma_psd_u16s_len(s, pos + 2, (count - 1) as nat, acc.push(be16(s, pos)));
    }
}

pub(crate) proof fn lemma_psd_u16s_range(s: Seq<u8>, pos: int, count: nat, acc: Seq<int>)
    requires
        forall|i: int| 0 <= i < acc.len() ==> 0 <= #[trigger] acc[i] < 65536,
    ensures
        psd_u16s(s, pos, count, acc) matches Ok((l, _)) ==> forall|i: int| 0 <= i < l.len() ==> 0 <= #[trigger] l[i] < 65536,
    decreases count,
{
    if count > 0 && avail(s, pos, 2) {
        let next = acc.push(be16(s, pos));
        assert forall|i: int| 0 <= i < next.len() implies 0 <= #[trigger] next[i] < 65536 by {
            if i == acc.len() {
                assert(0 <= be16(s, pos) < 65536);
            }
        }
        lemma_psd_u16s_range(s, pos + 2, (count - 1) as nat, next);
    }
}

/// Decode PackBits rows of `rb` bytes whose compressed lengths are `lengths`.
fn psd_rle_rows_into(r: &mut Cursor<'_>, lengths: &Vec<usize>, rb: usize) -> (res: Result<Vec<u8>, String>)
    requires
        old(r).wf(),
        rb * lengths@.len() <= usize::MAX,
    ensures
        match psd_rle_rows(old(r).data@, old(r).pos as int, lengths@.map_values(|l: usize| l as int), rb as int, seq![]) {
            Ok(m) => res matches Ok(v) && v@ == m,
            Err(e) => res matches Err(x) && x@ == e,
        },
{
    let ghost s = r.data@;
    let ghost lens = lengths@.map_values(|l: usize| l as int);
    let ghost rows_start = r.pos as int;
    let h = lengths.len();
    let mut output: Vec<u8> = Vec::new();
    let mut j: usize = 0;
    assert(lens.skip(0) =~= lens);
    while j < h
        invariant
            r.wf(),
            r.data@ == s,
            s == old(r).data@,
            rows_start == old(r).pos,
            j <= h,
            h == lengths@.len(),
            rb * h <= usize::MAX,
            lens == lengths@.map_values(|l: usize| l as int),
            output@.len() == j * rb,
            psd_rle_rows(s, rows_start, lens, rb as int, seq![]) == psd_rle_rows(s, r.pos as int, lens.skip(j as int), rb as int, output@),
        decreases h - j,
    {
        proof {
            assert(output@.len() + rb <= rb * h) by (nonlinear_arith)
                requires output@.len() == j * rb, j < h;
        }
        let len = lengths[j];
        let ghost rest = lens.skip(j as int);
        assert(rest[0] == len);
        let row = r.take(len)?;
        match psd_rle_row_into(row, rb, &mut output) {
            Ok(()) => {},
            Err(e) => return Err(e),
        }
        proof {
            assert(rest.drop_first() =~= lens.skip(j + 1));
            assert(output@.len() == (j + 1) * rb) by (nonlinear_arith)
                requires output@.len() == j * rb + rb;
        }
        j = j + 1;
    }
    proof {
        assert(lens.skip(h as int) =~= seq![]);
    }
    Ok(output)
}


/// Undo the differencing of every whole row of `rb` bytes.
fn unpredict_rows(raw: &mut Vec<u8>, rb: usize, width: usize, depth: u16)
    requires
        depth == 8 || depth == 16 || depth == 32,
        width >= 1,
        rb == row_bytes(width as int, depth as int),
    ensures
        final(raw)@ == unpredicted(old(raw)@, rb as int, width as int, depth as int),
{
    let ghost orig = raw@;
    let ghost target = unpredicted(orig, rb as int, width as int, depth as int);
    assert(rb >= 1) by (nonlinear_arith)
        requires rb == (width * depth + 7) / 8, width >= 1, depth >= 8;
    let len = raw.len();
    let rows = len / rb;
    proof {
        assert(rows * rb <= len) by (nonlinear_arith)
            requires rows == len / rb, rb >= 1;
    }
    let mut j: usize = 0;
    while j < rows
        invariant
            j <= rows,
            rb >= 1,
            rows == len / rb,
            rows * rb <= len,
            len == raw@.len(),
            len == orig.len(),
            depth == 8 || depth == 16 || depth == 32,
            width >= 1,
            rb == row_bytes(width as int, depth as int),
            target == unpredicted(orig, rb as int, width as int, depth as int),
            forall|i: int| 0 <= i < j * rb ==> #[trigger] raw@[i] == target[i],
            forall|i: int| j * rb <= i < len ==> #[trigger] raw@[i] == orig[i],
        decreases rows - j,
    {
        proof {
            assert((j + 1) * rb <= rows * rb) by (nonlinear_arith)
                requires j < rows, rb >= 1;
            assert((j + 1) * rb == j * rb + rb) by (nonlinear_arith);
        }
        let o = j * rb;
        let ghost before = raw@;
        unpredict_row_in_place(raw, o, rb, width, depth);
        proof {
            assert(before.subrange(o as int, o + rb) =~= orig.subrange(o as int, o + rb));
            assert forall|i: int| o <= i < o + rb implies #[trigger] raw@[i] == target[i] by {
                vstd::arithmetic::div_mod::lemma_fundamental_div_mod_converse(i, rb as int, j as int, i - o);
                assert(i < (orig.len() as int / rb as int) * rb);
            }
            assert forall|i: int| 0 <= i < (j + 1) * rb implies #[trigger] raw@[i] == target[i] by {
                if i >= o {
                    assert(raw@[i] == target[i]);
                } else {
                    assert(raw@[i] == before[i]);
                }
            }
            assert forall|i: int| (j + 1) * rb <= i < len implies #[trigger] raw@[i] == orig[i] by {
                assert(raw@[i] == before[i]);
            }
        }
        j = j + 1;
    }
    proof {
        assert forall|i: int| 0 <= i < len implies #[trigger] raw@[i] == target[i] by {
            if i >= rows * rb {
                assert(raw@[i] == orig[i]);
            }
        }
        assert(raw@ =~= target);
    }
}

/// Decode the image data of `channels` planes of `width` × `height` samples of
/// `depth` bits: raw, PackBits, ZIP, or ZIP with prediction.
pub fn decode_channels(data: &[u8], width: usize, height: usize, depth: u16, channels: usize) -> (res: Result<Vec<u8>, String>)
    requires
        width >= 1,
        depth >= 1,
        width * depth + 7 <= usize::MAX,
        height * channels <= usize::MAX,
        row_bytes(width as int, depth as int) * height * channels != u64::MAX,
    ensures
        match psd_channels(data@, width as int, height as int, depth as int, channels as int) {
            Ok(samples) => res matches Ok(v) && v@ == samples,
            Err(e) => res matches Err(x) && x@ == e,
        },
{
    let mut r = Cursor::new(data);
    let compression = r.u16()?;
    let row_bytes = (width * depth as usize + 7) / 8;
    let expected = match row_bytes.checked_mul(height) {
        Some(v) => match v.checked_mul(channels) {
            Some(e) => e,
            None => return Err(String::from_str("PSD data is too large")),
        },
        None => {
            proof {
                if channels >= 1 {
                    assert(row_bytes * height <= row_bytes * height * channels) by (nonlinear_arith)
                        requires channels >= 1, row_bytes * height >= 0;
                }
            }
            return Err(String::from_str("PSD data is too large"));
        },
    };
    if compression == 0 {
        let d = r.take(expected)?;
        Ok(vstd::slice::slice_to_vec(d))
    } else if compression == 1 {
        let lengths = psd_read_lengths(&mut r, height * channels)?;
        proof {
            lemma_psd_u16s_len(data@, 2, (height * channels) as nat, seq![]);
            let ghost lens = lengths@.map_values(|l: usize| l as int);
            match psd_u16s(data@, 2, (height * channels) as nat, seq![]) {
                Ok((l, st)) => { assert(lens =~= l); },
                Err(_) => {},
            }
            assert(row_bytes * (height * channels) == row_bytes * height * channels) by (nonlinear_arith);
        }
        psd_rle_rows_into(&mut r, &lengths, row_bytes)
    } else if compression == 2 || compression == 3 {
        let rest = &data[2..data.len()];
        assert(rest@ =~= data@.skip(2));
        let inflated = zlib_read(rest, expected as u64 + 1);
        zip_samples(inflated, expected, width, depth, compression == 3)
    } else {
        Err(String::from_str("Unsupported PSD image compression."))
    }
}


// ---------------------------------------------------------------------------
// File header, resources and the layer-and-mask section.

/// The fixed header and the first two sections of a PSD file.
pub struct PsdHeader<'a> {
    pub channels: usize,
    pub width: usize,
    pub height: usize,
    pub depth: u16,
    pub mode: u16,
    /// Channels that carry color in `mode` (1 gray/indexed/bitmap, 3 RGB/Lab, 4 CMYK).
    pub base: usize,
    pub palette: &'a [u8],
    pub resources: &'a [u8],
    /// Position of the layer-and-mask section.
    pub rest: usize,
}

/// The mathematical content of a [`PsdHeader`].
pub struct PsdHeaderView {
    pub channels: int,
    pub width: int,
    pub height: int,
    pub depth: int,
    pub mode: int,
    pub base: int,
    pub palette: Seq<u8>,
    pub resources: Seq<u8>,
    pub rest: int,
}

impl<'a> PsdHeader<'a> {
    pub open spec fn view(&self) -> PsdHeaderView {
        PsdHeaderView {
            channels: self.channels as int,
            width: self.width as int,
            height: self.height as int,
            depth: self.depth as int,
            mode: self.mode as int,
            base: self.base as int,
            palette: self.palette@,
            resources: self.resources@,
            rest: self.rest as int,
        }
    }
}

/// Color channels of a color mode, or none for an unsupported mode.
pub open spec fn mode_base(mode: int) -> Option<int> {
    if mode == 0 || mode == 1 || mode == 2 || mode == 8 {
        Some(1)
    } else if mode == 3 || mode == 9 {
        Some(3)
    } else if mode == 4 {
        Some(4)
    } else {
        None
    }
}

/// Whether a color mode and bit depth may be combined.
pub open spec fn depth_mode_ok(channels: int, base: int, depth: int, mode: int) -> bool {
    &&& channels >= base
    &&& (depth == 1 || depth == 8 || depth == 16 || depth == 32)
    &&& !(depth == 1 && mode != 0)
    &&& !(mode == 0 && depth != 1)
    &&& !(mode == 2 && depth != 8)
}

/// `8BPS`.
pub open spec fn signature_8bps() -> Seq<u8> {
    seq![0x38u8, 0x42u8, 0x50u8, 0x53u8]
}

pub open spec fn not_psd() -> Seq<char> {
    "Not a PSD version 1 document."@
}

/// The header of the PSD file `s`.
pub open spec fn psd_header(s: Seq<u8>) -> Result<PsdHeaderView, Seq<char>> {
    if !avail(s, 0, 4) {
        Err(psd_take_error(0, 4))
    } else if s.subrange(0, 4) != signature_8bps() {
        Err(not_psd())
    } else if !avail(s, 4, 2) {
        Err(psd_take_error(4, 2))
    } else if be16(s, 4) != 1 {
        Err(not_psd())
    } else if !avail(s, 6, 6) {
        Err(psd_take_error(6, 6))
    } else if exists|i: int| 6 <= i < 12 && s[i] != 0 {
        Err("Invalid PSD header."@)
    } else if !avail(s, 12, 2) {
        Err(psd_take_error(12, 2))
    } else if !avail(s, 14, 4) {
        Err(psd_take_error(14, 4))
    } else if !avail(s, 18, 4) {
        Err(psd_take_error(18, 4))
    } else {
        let channels = be16(s, 12);
        let height = be32(s, 14);
        let width = be32(s, 18);
        match crate::limits::canvas_pixels_error(width, height) {
            Some(e) => Err(e),
            None => if !(1 <= channels <= 56) || width > 30000 || height > 30000 {
                Err("Invalid PSD dimensions or channels."@)
            } else if !avail(s, 22, 2) {
                Err(psd_take_error(22, 2))
            } else if !avail(s, 24, 2) {
                Err(psd_take_error(24, 2))
            } else {
                let depth = be16(s, 22);
                let mode = be16(s, 24);
                match mode_base(mode) {
                    None => Err("PSD multichannel color is not supported; convert it to RGB in Photoshop."@),
                    Some(base) => if !depth_mode_ok(channels, base, depth, mode) {
                        Err("Unsupported PSD color mode and bit depth combination."@)
                    } else {
                        match psd_section(s, 26) {
                            Err(e) => Err(e),
                            Ok((palette, p)) => if mode == 2 && palette.len() != 768 {
                                Err("Invalid PSD indexed palette."@)
                            } else {
                                match psd_section(s, p) {
                                    Err(e) => Err(e),
                                    Ok((resources, q)) => Ok(PsdHeaderView {
                                        channels, width, height, depth, mode, base, palette, resources, rest: q,
                                    }),
                                }
                            },
                        }
                    },
                }
            },
        }
    }
}

/// Whether every byte of `d` is zero.
fn all_zero(d: &[u8]) -> (b: bool)
    ensures
        b == (forall|k: int| 0 <= k < d@.len() ==> d@[k] == 0),
{
    let mut i: usize = 0;
    while i < d.len()
        invariant
            i <= d@.len(),
            forall|k: int| 0 <= k < i ==> d@[k] == 0,
        decreases d@.len() - i,
    {
        if d[i] != 0 {
            return false;
        }
        i = i + 1;
    }
    true
}

/// Read the fixed header, color-mode data and image resources of a PSD file.
pub fn read_header<'a>(data: &'a [u8]) -> (res: Result<PsdHeader<'a>, String>)
    ensures
        match psd_header(data@) {
            Ok(h) => res matches Ok(v) && v.view() == h,
            Err(e) => res matches Err(x) && x@ == e,
        },
{
    let mut r = Cursor::new(data);
    let signature = r.take(4)?;
    if !(signature[0] == 0x38 && signature[1] == 0x42 && signature[2] == 0x50 && signature[3] == 0x53) {
        proof {
            if data@.subrange(0, 4) == signature_8bps() {
                assert(signature@[0] == signature_8bps()[0]);
                assert(signature@[1] == signature_8bps()[1]);
                assert(signature@[2] == signature_8bps()[2]);
                assert(signature@[3] == signature_8bps()[3]);
            }
        }
        return Err(String::from_str("Not a PSD version 1 document."));
    }
    assert(signature@ =~= signature_8bps());
    if r.u16()? != 1 {
        return Err(String::from_str("Not a PSD version 1 document."));
    }
    let reserved = r.take(6)?;
    if !all_zero(reserved) {
        assert(exists|k: int| 6 <= k < 12 && data@[k] != 0) by {
            let k = choose|k: int| 0 <= k < reserved@.len() && reserved@[k] != 0;
            assert(data@[6 + k] == reserved@[k]);
        }
        return Err(String::from_str("Invalid PSD header."));
    }
    assert(!(exists|k: int| 6 <= k < 12 && data@[k] != 0)) by {
        assert forall|k: int| 6 <= k < 12 implies data@[k] == 0 by {
            assert(reserved@[k - 6] == 0);
        }
    }
    let channels = r.u16()? as usize;
    let height = r.u32()? as usize;
    let width = r.u32()? as usize;
    match crate::import::check_dimensions(width, height) {
        Ok(()) => {},
        Err(e) => return Err(e),
    }
    if !(1 <= channels && channels <= 56) || width > 30000 || height > 30000 {
        return Err(String::from_str("Invalid PSD dimensions or channels."));
    }
    let depth = r.u16()?;
    let mode = r.u16()?;
    let base: usize = if mode == 0 || mode == 1 || mode == 2 || mode == 8 {
        1
    } else if mode == 3 || mode == 9 {
        3
    } else if mode == 4 {
        4
    } else {
        return Err(String::from_str("PSD multichannel color is not supported; convert it to RGB in Photoshop."));
    };
    if channels < base
        || !(depth == 1 || depth == 8 || depth == 16 || depth == 32)
        || (depth == 1 && mode != 0)
        || (mode == 0 && depth != 1)
        || (mode == 2 && depth != 8)
    {
        return Err(String::from_str("Unsupported PSD color mode and bit depth combination."));
    }
    let palette = r.section()?;
    if mode == 2 && palette.len() != 768 {
        return Err(String::from_str("Invalid PSD indexed palette."));
    }
    let resources = r.section()?;
    Ok(PsdHeader { channels, width, height, depth, mode, base, palette, resources, rest: r.pos })
}


/// One image resource block.
pub struct PsdResource<'a> {
    pub id: u16,
    /// The Pascal name's bytes, without its length byte or padding.
    pub name: &'a [u8],
    pub payload: &'a [u8],
}

/// The image resource block at `pos` of `s`: id, name, payload, and the
/// position after it.
pub open spec fn psd_resource(s: Seq<u8>, pos: int) -> Result<(int, Seq<u8>, Seq<u8>, int), Seq<char>> {
    if !avail(s, pos, 4) {
        Err(psd_take_error(pos, 4))
    } else if s.subrange(pos, pos + 4) != crate::drawing::brush::signature_8bim() {
        Err("Invalid PSD resource signature."@)
    } else if !avail(s, pos + 4, 2) {
        Err(psd_take_error(pos + 4, 2))
    } else if !avail(s, pos + 6, 1) {
        Err(psd_take_error(pos + 6, 1))
    } else if !avail(s, pos + 7, s[pos + 6] as int) {
        Err(psd_take_error(pos + 7, s[pos + 6] as int))
    } else {
        let n = s[pos + 6] as int;
        let name = s.subrange(pos + 7, pos + 7 + n);
        let p = pos + 7 + n;
        if (n + 1) % 2 != 0 && !avail(s, p, 1) {
            Err(psd_take_error(p, 1))
        } else {
            let p2 = if (n + 1) % 2 != 0 { p + 1 } else { p };
            match psd_section(s, p2) {
                Err(e) => Err(e),
                Ok((payload, q)) => if payload.len() % 2 != 0 && !avail(s, q, 1) {
                    Err(psd_take_error(q, 1))
                } else {
                    Ok((be16(s, pos + 4), name, payload, if payload.len() % 2 != 0 { q + 1 } else { q }))
                },
            }
        }
    }
}

/// Read the image resource block at the cursor.
pub fn next_resource<'a>(r: &mut Cursor<'a>) -> (res: Result<PsdResource<'a>, String>)
    requires
        old(r).wf(),
    ensures
        final(r).wf(),
        final(r).data@ == old(r).data@,
        match psd_resource(old(r).data@, old(r).pos as int) {
            Ok((id, name, payload, next)) => res matches Ok(v) && v.id == id && v.name@ == name
                && v.payload@ == payload && final(r).pos == next,
            Err(e) => res matches Err(x) && x@ == e,
        },
{
    let ghost s = r.data@;
    let ghost pos = r.pos as int;
    let signature = r.take(4)?;
    if !(signature[0] == 0x38 && signature[1] == 0x42 && signature[2] == 0x49 && signature[3] == 0x4D) {
        proof {
            let t = crate::drawing::brush::signature_8bim();
            if s.subrange(pos, pos + 4) == t {
                assert(signature@[0] == t[0]);
                assert(signature@[1] == t[1]);
                assert(signature@[2] == t[2]);
                assert(signature@[3] == t[3]);
            }
        }
        return Err(String::from_str("Invalid PSD resource signature."));
    }
    assert(signature@ =~= crate::drawing::brush::signature_8bim());
    let id = r.u16()?;
    let n = r.take(1)?[0] as usize;
    let name = r.take(n)?;
    if (n + 1) % 2 != 0 {
        r.take(1)?;
    }
    let payload = r.section()?;
    if payload.len() % 2 != 0 {
        r.take(1)?;
    }
    Ok(PsdResource { id, name, payload })
}

/// `8B64`, the signature of large-document tagged blocks.
pub open spec fn signature_8b64() -> Seq<u8> {
    seq![0x38u8, 0x42u8, 0x36u8, 0x34u8]
}

/// Whether the two-byte count at the start of `info` is negative.
pub open spec fn negative_count(info: Seq<u8>) -> bool {
    info.len() >= 2 && info[0] >= 128
}

/// The tagged blocks of the layer-and-mask section `m` from `pos`: whether the
/// merged image has transparency, and the layer information to read.
pub open spec fn tagged_layer_blocks(m: Seq<u8>, pos: int, merged_alpha: bool, info: Seq<u8>) -> Result<(bool, Seq<u8>), Seq<char>>
    decreases m.len() - pos,
{
    if pos < 0 || pos + 12 > m.len() {
        Ok((merged_alpha, info))
    } else if m.subrange(pos, pos + 4) != crate::drawing::brush::signature_8bim()
        && m.subrange(pos, pos + 4) != signature_8b64() {
        Ok((merged_alpha, info))
    } else {
        let key = m.subrange(pos + 4, pos + 8);
        match psd_section(m, pos + 8) {
            Err(e) => Err(e),
            Ok((extra, q)) => {
                let high_depth = (key == seq![0x4Cu8, 0x72u8, 0x31u8, 0x36u8] || key == seq![0x4Cu8, 0x72u8, 0x33u8, 0x32u8])
                    && extra.len() >= 2;
                let merged = if high_depth { merged_alpha || negative_count(extra) } else { merged_alpha };
                let layers = if high_depth { extra } else { info };
                let pad = (4 - extra.len() % 4) % 4;
                if !avail(m, q, pad) {
                    Err(psd_take_error(q, pad))
                } else {
                    tagged_layer_blocks(m, q + pad, merged, layers)
                }
            },
        }
    }
}

/// The layer-and-mask section `m`: whether the merged image has transparency,
/// and the layer information (8-bit, or the `Lr16`/`Lr32` block) to read.
pub open spec fn layer_mask_info(m: Seq<u8>) -> Result<(bool, Seq<u8>), Seq<char>> {
    if m.len() < 6 {
        Ok((false, seq![]))
    } else {
        match psd_section(m, 0) {
            Err(e) => Err(e),
            Ok((info, p)) => if p + 4 <= m.len() {
                match psd_section(m, p) {
                    Err(e) => Err(e),
                    Ok((_, q)) => tagged_layer_blocks(m, q, negative_count(info), info),
                }
            } else {
                Ok((negative_count(info), info))
            },
        }
    }
}

/// Whether the four bytes `d` equal `a b c e`.
pub(crate) fn tag_is(d: &[u8], a: u8, b: u8, c: u8, e: u8) -> (r: bool)
    requires
        d@.len() == 4,
    ensures
        r == (d@ == seq![a, b, c, e]),
{
    let r = d[0] == a && d[1] == b && d[2] == c && d[3] == e;
    if r {
        assert(d@ =~= seq![a, b, c, e]);
    } else {
        assert(d@ != seq![a, b, c, e]) by {
            if d@ == seq![a, b, c, e] {
                assert(d@[0] == seq![a, b, c, e][0]);
                assert(d@[1] == seq![a, b, c, e][1]);
                assert(d@[2] == seq![a, b, c, e][2]);
                assert(d@[3] == seq![a, b, c, e][3]);
            }
        }
    }
    r
}

/// Read one tagged block of the layer-and-mask section.
fn layer_block<'a>(layers: &mut Cursor<'a>, merged_alpha: &mut bool, info: &mut &'a [u8]) -> (res: Result<bool, String>)
    requires
        old(layers).wf(),
        old(layers).pos + 12 <= old(layers).data@.len(),
    ensures
        final(layers).wf(),
        final(layers).data@ == old(layers).data@,
        tagged_layer_blocks(old(layers).data@, old(layers).pos as int, *old(merged_alpha), old(info)@) == (match res {
            Ok(true) => tagged_layer_blocks(final(layers).data@, final(layers).pos as int, *final(merged_alpha), final(info)@),
            Ok(false) => Ok((*old(merged_alpha), old(info)@)),
            Err(e) => Err(e@),
        }),
        res matches Ok(true) ==> final(layers).pos > old(layers).pos,
        res matches Ok(false) ==> *final(merged_alpha) == *old(merged_alpha) && final(info)@ == old(info)@,
{
    let signature = layers.take(4)?;
    if !tag_is(signature, 0x38, 0x42, 0x49, 0x4D) && !tag_is(signature, 0x38, 0x42, 0x36, 0x34) {
        return Ok(false);
    }
    let key = layers.take(4)?;
    let extra = layers.section()?;
    if (tag_is(key, 0x4C, 0x72, 0x31, 0x36) || tag_is(key, 0x4C, 0x72, 0x33, 0x32)) && extra.len() >= 2 {
        *info = extra;
        *merged_alpha = *merged_alpha || extra[0] >= 128;
    }
    let padding = (4 - extra.len() % 4) % 4;
    layers.take(padding)?;
    Ok(true)
}

/// Read the layer-and-mask section: whether the merged image has transparency
/// (a negative layer count), and the layer information to decode.
pub fn layer_and_mask<'a>(layer_mask: &'a [u8]) -> (res: Result<(bool, &'a [u8]), String>)
    ensures
        match layer_mask_info(layer_mask@) {
            Ok((alpha, info)) => res matches Ok(v) && v.0 == alpha && v.1@ == info,
            Err(e) => res matches Err(x) && x@ == e,
        },
{
    let mut merged_alpha = false;
    let empty: &[u8] = &[];
    let mut layer_info = empty;
    if layer_mask.len() >= 6 {
        let mut layers = Cursor::new(layer_mask);
        let info = layers.section()?;
        layer_info = info;
        if info.len() >= 2 {
            merged_alpha = info[0] >= 128;
        }
        let len = layer_mask.len();
        if layers.pos <= len - 4 {
            layers.section()?;
            let mut done = false;
            while !done && len >= 12 && layers.pos <= len - 12
                invariant
                    layers.wf(),
                    len == layer_mask@.len(),
                    len >= 6,
                    layers.data@ == layer_mask@,
                    layer_mask_info(layer_mask@) == if done {
                        Ok((merged_alpha, layer_info@))
                    } else {
                        tagged_layer_blocks(layer_mask@, layers.pos as int, merged_alpha, layer_info@)
                    },
                decreases (if done { 0int } else { 1int }), layer_mask@.len() - layers.pos,
            {
                if !layer_block(&mut layers, &mut merged_alpha, &mut layer_info)? {
                    done = true;
                }
            }
        }
    } else {
        assert(layer_info@ =~= seq![]);
    }
    Ok((merged_alpha, layer_info))
}

} // verus!
