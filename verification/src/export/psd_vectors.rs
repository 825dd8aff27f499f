//! Photoshop-native path records, image resources and descriptors.
use vstd::prelude::*;
use vstd::arithmetic::power2::pow2;
use crate::drawing::brush::signature_8bim;
use crate::export::{be16_bytes, be32_bytes, be_u16, be_u32};
use crate::import::psd::vectors::{FixedPoint, PathKnot, SubpathView, fixed_at, knot_at, path_knots, path_records, psd_paths};
use crate::drawing::brush::{be16, be32};
use crate::text::{decimal, push_decimal, str_chars, string_from_chars};
use vstd::string::StringSliceAdditionalSpecFns;
use crate::import::psd::descriptor::{ColorModel, ShapePaint, StyleNumber, ValueView, bits64, d_block, d_descriptor, d_entries, d_identifier, d_unicode, d_value, keys_of, last_index, w_color, w_shape_paint};

verus! {

/// A 26-byte path record of `kind` holding `body`, zero-padded to 24 bytes.
pub open spec fn record_bytes(kind: int, body: Seq<u8>) -> Seq<u8> {
    be16_bytes(kind) + body + Seq::new((24 - body.len()) as nat, |_i: int| 0u8)
}

/// Append a path record.
pub fn record(out: &mut Vec<u8>, kind: u16, body: &[u8])
    requires
        body@.len() <= 24,
        old(out)@.len() + 26 <= usize::MAX,
    ensures
        final(out)@ == old(out)@ + record_bytes(kind as int, body@),
{
    let ghost start = out@;
    be_u16(out, kind);
    let ghost before = out@;
    out.extend_from_slice(body);
    proof {
        assert forall|i: int| before.len() <= i < out@.len() implies #[trigger] out@[i] == body@[i - before.len()] by {
            assert(cloned::<u8>(body@[i - before.len()], out@[i]));
        }
        assert(out@ =~= before + body@);
    }
    let ghost mid = out@;
    let target = out.len() + (24 - body.len());
    out.resize(target, 0);
    proof {
        let expected = start + record_bytes(kind as int, body@);
        assert forall|i: int| 0 <= i < out@.len() implies #[trigger] out@[i] == expected[i] by {
            if i >= mid.len() {
                assert(cloned::<u8>(0u8, out@[i]));
            } else {
                assert(out@.subrange(0, mid.len() as int) =~= mid);
                assert(out@[i] == out@.subrange(0, mid.len() as int)[i]);
            }
        }
        assert(out@ =~= expected);
    }
}

/// The empty path-fill record that opens every path resource.
pub fn blank() -> (b: Vec<u8>)
    ensures
        b@ == record_bytes(6, seq![]),
{
    let mut b: Vec<u8> = Vec::new();
    let empty: [u8; 0] = [];
    record(&mut b, 6, &empty);
    assert(b@ =~= record_bytes(6, seq![]));
    b
}

/// A Pascal name: the first 255 characters, each non-ASCII one as `?`.
pub open spec fn pascal_name(name: Seq<char>) -> Seq<u8> {
    name.take(if name.len() < 255 { name.len() as int } else { 255 }).map_values(|c: char| if (c as u32) < 128 { c as u8 } else { 63u8 })
}

/// An image resource block with `id`, name `name` and payload `data`.
pub open spec fn resource_bytes(id: int, name: Seq<char>, data: Seq<u8>) -> Seq<u8> {
    let n = pascal_name(name);
    signature_8bim() + be16_bytes(id) + seq![n.len() as u8] + n
        + (if (n.len() + 1) % 2 != 0 { seq![0u8] } else { seq![] })
        + be32_bytes(data.len() as int % 0x1_0000_0000) + data
        + (if data.len() % 2 != 0 { seq![0u8] } else { seq![] })
}

/// The Pascal-name bytes of `name`.
pub fn pascal_bytes(name: &str) -> (b: Vec<u8>)
    ensures
        b@ == pascal_name(name@),
{
    let chars = crate::text::str_chars(name);
    let limit = if chars.len() < 255 { chars.len() } else { 255 };
    let mut b: Vec<u8> = Vec::new();
    let mut i: usize = 0;
    while i < limit
        invariant
            i <= limit,
            limit <= chars@.len(),
            limit == (if chars@.len() < 255 { chars@.len() as int } else { 255 }),
            chars@ == name@,
            b@ == chars@.take(i as int).map_values(|c: char| if (c as u32) < 128 { c as u8 } else { 63u8 }),
        decreases limit - i,
    {
        let c = chars[i];
        let v: u8 = if (c as u32) < 128 { c as u8 } else { 63 };
        b.push(v);
        assert(chars@.take(i + 1).map_values(|c: char| if (c as u32) < 128 { c as u8 } else { 63u8 })
            =~= chars@.take(i as int).map_values(|c: char| if (c as u32) < 128 { c as u8 } else { 63u8 }).push(v));
        i = i + 1;
    }
    b
}

/// Append an image resource block.
pub fn resource(out: &mut Vec<u8>, id: u16, name: &str, data: &[u8])
    ensures
        final(out)@ == old(out)@ + resource_bytes(id as int, name@, data@),
{
    let ghost start = out@;
    out.push(0x38); out.push(0x42); out.push(0x49); out.push(0x4D);
    be_u16(out, id);
    let n = pascal_bytes(name);
    out.push(n.len() as u8);
    out.extend_from_slice(n.as_slice());
    if (n.len() + 1) % 2 != 0 {
        out.push(0);
    }
    let len = data.len();
    let len32: u32 = (len as u64 % 0x1_0000_0000) as u32;
    be_u32(out, len32);
    out.extend_from_slice(data);
    if len % 2 != 0 {
        out.push(0);
    }
    assert(out@ =~= start + resource_bytes(id as int, name@, data@));
}

/// A zero-length key followed by the four-character key `key`.
pub open spec fn id_bytes(key: Seq<u8>) -> Seq<u8> {
    be32_bytes(0) + key
}

pub fn id(b: &mut Vec<u8>, key: &[u8; 4])
    ensures
        final(b)@ == old(b)@ + id_bytes(key@),
{
    let ghost start = b@;
    be_u32(b, 0);
    b.push(key[0]); b.push(key[1]); b.push(key[2]); b.push(key[3]);
    assert(b@ =~= start + id_bytes(key@));
}

/// A descriptor header: empty name, class `class`, `count` items.
pub open spec fn descriptor_bytes(class: Seq<u8>, count: int) -> Seq<u8> {
    be32_bytes(0) + id_bytes(class) + be32_bytes(count)
}

pub fn descriptor(b: &mut Vec<u8>, class: &[u8; 4], count: u32)
    ensures
        final(b)@ == old(b)@ + descriptor_bytes(class@, count as int),
{
    let ghost start = b@;
    be_u32(b, 0);
    id(b, class);
    be_u32(b, count);
    assert(b@ =~= start + descriptor_bytes(class@, count as int));
}

/// The binary exponent of a positive byte value.
pub open spec fn byte_exponent(v: int) -> nat {
    if v >= 128 { 7 } else if v >= 64 { 6 } else if v >= 32 { 5 } else if v >= 16 { 4 }
    else if v >= 8 { 3 } else if v >= 4 { 2 } else if v >= 2 { 1 } else { 0 }
}

/// The IEEE 754 binary64 bit pattern of the integer `v` in `0..256`:
/// biased exponent and the fraction bits below the leading one.
pub open spec fn f64_bits(v: int) -> int {
    if v == 0 {
        0
    } else {
        let e = byte_exponent(v);
        (1023 + e) * pow2(52) + (v - pow2(e)) * pow2((52 - e) as nat)
    }
}

/// Big-endian bytes of a 64-bit value.
pub open spec fn be64_bytes(x: int) -> Seq<u8> {
    seq![
        ((x / 0x100_0000_0000_0000) % 256) as u8, ((x / 0x1_0000_0000_0000) % 256) as u8,
        ((x / 0x100_0000_0000) % 256) as u8, ((x / 0x1_0000_0000) % 256) as u8,
        ((x / 0x100_0000) % 256) as u8, ((x / 0x1_0000) % 256) as u8,
        ((x / 0x100) % 256) as u8, (x % 256) as u8
    ]
}

/// The binary64 encoding of a byte value.
fn f64_bits_of_byte(v: u8) -> (bits: u64)
    ensures
        bits == f64_bits(v as int),
{
    proof {
        vstd::arithmetic::power2::lemma2_to64();
        vstd::arithmetic::power2::lemma2_to64_rest();
    }
    let ghost g = v as int;
    let v = v as u64;
    let (e, lead, scale): (u64, u64, u64) = if v >= 128 {
        (7, 128, 0x2000_0000_0000)
    } else if v >= 64 {
        (6, 64, 0x4000_0000_0000)
    } else if v >= 32 {
        (5, 32, 0x8000_0000_0000)
    } else if v >= 16 {
        (4, 16, 0x1_0000_0000_0000)
    } else if v >= 8 {
        (3, 8, 0x2_0000_0000_0000)
    } else if v >= 4 {
        (2, 4, 0x4_0000_0000_0000)
    } else if v >= 2 {
        (1, 2, 0x8_0000_0000_0000)
    } else {
        (0, 1, 0x10_0000_0000_0000)
    };
    if v == 0 {
        return 0;
    }
    assert(e == byte_exponent(g));
    assert(lead == pow2(e as nat));
    assert(scale == pow2((52 - e) as nat));
    assert(pow2(52) == 0x10_0000_0000_0000);
    assert(lead * scale == 0x10_0000_0000_0000) by {
        if e == 7 {
            assert(lead * scale == 0x10_0000_0000_0000) by (nonlinear_arith)
                requires lead == 128, scale == 0x2000_0000_0000;
        }
        if e == 6 {
            assert(lead * scale == 0x10_0000_0000_0000) by (nonlinear_arith)
                requires lead == 64, scale == 0x4000_0000_0000;
        }
        if e == 5 {
            assert(lead * scale == 0x10_0000_0000_0000) by (nonlinear_arith)
                requires lead == 32, scale == 0x8000_0000_0000;
        }
        if e == 4 {
            assert(lead * scale == 0x10_0000_0000_0000) by (nonlinear_arith)
                requires lead == 16, scale == 0x1_0000_0000_0000;
        }
        if e == 3 {
            assert(lead * scale == 0x10_0000_0000_0000) by (nonlinear_arith)
                requires lead == 8, scale == 0x2_0000_0000_0000;
        }
        if e == 2 {
            assert(lead * scale == 0x10_0000_0000_0000) by (nonlinear_arith)
                requires lead == 4, scale == 0x4_0000_0000_0000;
        }
        if e == 1 {
            assert(lead * scale == 0x10_0000_0000_0000) by (nonlinear_arith)
                requires lead == 2, scale == 0x8_0000_0000_0000;
        }
        if e == 0 {
            assert(lead * scale == 0x10_0000_0000_0000) by (nonlinear_arith)
                requires lead == 1, scale == 0x10_0000_0000_0000;
        }
    }
    assert((v - lead) * scale <= 0x10_0000_0000_0000) by (nonlinear_arith)
        requires v - lead < lead, lead * scale == 0x10_0000_0000_0000, v >= lead;
    (1023 + e) * 0x10_0000_0000_0000 + (v - lead) * scale
}

/// Append the big-endian bytes of a 64-bit value.
pub(crate) fn be_u64(out: &mut Vec<u8>, x: u64)
    ensures
        final(out)@ == old(out)@ + be64_bytes(x as int),
{
    let ghost start = out@;
    out.push(((x / 0x100_0000_0000_0000) % 256) as u8);
    out.push(((x / 0x1_0000_0000_0000) % 256) as u8);
    out.push(((x / 0x100_0000_0000) % 256) as u8);
    out.push(((x / 0x1_0000_0000) % 256) as u8);
    out.push(((x / 0x100_0000) % 256) as u8);
    out.push(((x / 0x1_0000) % 256) as u8);
    out.push(((x / 0x100) % 256) as u8);
    out.push((x % 256) as u8);
    assert(out@ =~= start + be64_bytes(x as int));
}

/// One `doub` item of an RGB color descriptor.
pub open spec fn color_item(key: Seq<u8>, v: u8) -> Seq<u8> {
    id_bytes(key) + seq![0x64u8, 0x6Fu8, 0x75u8, 0x62u8] + be64_bytes(f64_bits(v as int))
}

/// The `SoCo` payload of a solid color fill.
#[verifier::opaque]
pub open spec fn solid_color_bytes(rgb: [u8; 3]) -> Seq<u8> {
    be32_bytes(16) + descriptor_bytes(seq![0x6Eu8, 0x75u8, 0x6Cu8, 0x6Cu8], 1)
        + id_bytes(seq![0x43u8, 0x6Cu8, 0x72u8, 0x20u8]) + seq![0x4Fu8, 0x62u8, 0x6Au8, 0x63u8]
        + descriptor_bytes(seq![0x52u8, 0x47u8, 0x42u8, 0x43u8], 3)
        + color_item(seq![0x52u8, 0x64u8, 0x20u8, 0x20u8], rgb[0])
        + color_item(seq![0x47u8, 0x72u8, 0x6Eu8, 0x20u8], rgb[1])
        + color_item(seq![0x42u8, 0x6Cu8, 0x20u8, 0x20u8], rgb[2])
}

fn push_color_item(b: &mut Vec<u8>, key: &[u8; 4], v: u8)
    ensures
        final(b)@ == old(b)@ + color_item(key@, v),
{
    let ghost start = b@;
    id(b, key);
    b.push(0x64); b.push(0x6F); b.push(0x75); b.push(0x62);
    be_u64(b, f64_bits_of_byte(v));
    assert(b@ =~= start + color_item(key@, v));
}

/// The descriptor of a solid RGB color fill, channel values as doubles.
pub fn solid_color(rgb: [u8; 3]) -> (b: Vec<u8>)
    ensures
        b@ == solid_color_bytes(rgb),
{
    let mut b: Vec<u8> = Vec::new();
    be_u32(&mut b, 16);
    descriptor(&mut b, &[0x6E, 0x75, 0x6C, 0x6C], 1);
    id(&mut b, &[0x43, 0x6C, 0x72, 0x20]);
    b.push(0x4F); b.push(0x62); b.push(0x6A); b.push(0x63);
    descriptor(&mut b, &[0x52, 0x47, 0x42, 0x43], 3);
    push_color_item(&mut b, &[0x52, 0x64, 0x20, 0x20], rgb[0]);
    push_color_item(&mut b, &[0x47, 0x72, 0x6E, 0x20], rgb[1]);
    push_color_item(&mut b, &[0x42, 0x6C, 0x20, 0x20], rgb[2]);
    proof { reveal(solid_color_bytes); }
    assert(b@ =~= solid_color_bytes(rgb));
    b
}

/// A tagged block: signature, key, length, data and even padding.
pub open spec fn tagged_bytes(key: Seq<u8>, data: Seq<u8>) -> Seq<u8> {
    signature_8bim() + key + be32_bytes(data.len() as int % 0x1_0000_0000) + data
        + (if data.len() % 2 != 0 { seq![0u8] } else { seq![] })
}

/// Append a tagged block.
pub fn tagged(out: &mut Vec<u8>, key: &[u8; 4], data: &[u8])
    ensures
        final(out)@ == old(out)@ + tagged_bytes(key@, data@),
{
    let ghost start = out@;
    out.push(0x38); out.push(0x42); out.push(0x49); out.push(0x4D);
    out.push(key[0]); out.push(key[1]); out.push(key[2]); out.push(key[3]);
    let len = data.len();
    be_u32(out, (len as u64 % 0x1_0000_0000) as u32);
    out.extend_from_slice(data);
    if len % 2 != 0 {
        out.push(0);
    }
    assert(out@ =~= start + tagged_bytes(key@, data@));
}

/// The two's-complement bytes of a 32-bit signed value, big-endian.
pub open spec fn i32_be(v: i32) -> Seq<u8> {
    be32_bytes(if v < 0 { v + 0x1_0000_0000 } else { v as int })
}

/// A point as a path record stores it: vertical coordinate first.
pub open spec fn point_bytes(p: FixedPoint) -> Seq<u8> {
    i32_be(p.y) + i32_be(p.x)
}

/// The 24 coordinate bytes of a knot record.
pub open spec fn knot_body(k: PathKnot) -> Seq<u8> {
    point_bytes(k.before) + point_bytes(k.anchor) + point_bytes(k.after)
}

/// The knot selector of a closed (2) or open (5) subpath.
pub open spec fn knot_kind(closed: bool) -> int {
    if closed { 2 } else { 5 }
}

/// The subpath record kind of a closed (0) or open (3) subpath.
pub open spec fn subpath_kind(closed: bool) -> int {
    if closed { 0 } else { 3 }
}

/// The record of one knot.
#[verifier::opaque]
pub open spec fn knot_record(k: PathKnot, closed: bool) -> Seq<u8> {
    record_bytes(knot_kind(closed), knot_body(k))
}

/// The knot records of `knots`.
pub open spec fn knot_records(knots: Seq<PathKnot>, closed: bool) -> Seq<u8>
    decreases knots.len(),
{
    if knots.len() == 0 {
        seq![]
    } else {
        knot_records(knots.drop_last(), closed) + knot_record(knots.last(), closed)
    }
}

/// The bytes of a knot record: its selector, then the six coordinates.
proof fn lemma_knot_record_bytes(k: PathKnot, closed: bool)
    ensures
        knot_record(k, closed).len() == 26,
        be16(knot_record(k, closed), 0) == knot_kind(closed),
        knot_record(k, closed).subrange(2, 6) == i32_be(k.before.y),
        knot_record(k, closed).subrange(6, 10) == i32_be(k.before.x),
        knot_record(k, closed).subrange(10, 14) == i32_be(k.anchor.y),
        knot_record(k, closed).subrange(14, 18) == i32_be(k.anchor.x),
        knot_record(k, closed).subrange(18, 22) == i32_be(k.after.y),
        knot_record(k, closed).subrange(22, 26) == i32_be(k.after.x),
{
    reveal(knot_record);
    let r = knot_record(k, closed);
    crate::export::lemma_be_round_trip(knot_kind(closed) as u16, 0);
    assert(r.subrange(2, 6) =~= i32_be(k.before.y));
    assert(r.subrange(6, 10) =~= i32_be(k.before.x));
    assert(r.subrange(10, 14) =~= i32_be(k.anchor.y));
    assert(r.subrange(14, 18) =~= i32_be(k.anchor.x));
    assert(r.subrange(18, 22) =~= i32_be(k.after.y));
    assert(r.subrange(22, 26) =~= i32_be(k.after.x));
}

/// One subpath record followed by its knot records.
pub open spec fn subpath_records(knots: Seq<PathKnot>, closed: bool) -> Seq<u8> {
    record_bytes(subpath_kind(closed), be16_bytes(knots.len() as int)) + knot_records(knots, closed)
}

/// The records of a path through `knots`: a subpath per 65535 knots, since
/// a subpath record counts its knots in 16 bits.
pub open spec fn path_bytes(knots: Seq<PathKnot>, closed: bool) -> Seq<u8>
    decreases knots.len(),
{
    if knots.len() == 0 {
        seq![]
    } else if knots.len() <= 65535 {
        subpath_records(knots, closed)
    } else {
        subpath_records(knots.take(65535), closed) + path_bytes(knots.skip(65535), closed)
    }
}

/// The subpaths that [`path_bytes`] writes for `knots`.
pub open spec fn path_chunks(knots: Seq<PathKnot>, closed: bool) -> Seq<SubpathView>
    decreases knots.len(),
{
    if knots.len() == 0 {
        seq![]
    } else if knots.len() <= 65535 {
        seq![SubpathView { knots, closed, operation: 0 }]
    } else {
        seq![SubpathView { knots: knots.take(65535), closed, operation: 0 }] + path_chunks(knots.skip(65535), closed)
    }
}

/// Append the big-endian two's-complement bytes of `v`.
fn be_i32(out: &mut Vec<u8>, v: i32)
    ensures
        final(out)@ == old(out)@ + i32_be(v),
{
    let u: u32 = if v < 0 { (v as i64 + 0x1_0000_0000) as u32 } else { v as u32 };
    be_u32(out, u);
}

/// The 24 coordinate bytes of a knot record.
fn knot_body_bytes(k: PathKnot) -> (b: Vec<u8>)
    ensures
        b@ == knot_body(k),
{
    let mut b: Vec<u8> = Vec::new();
    be_i32(&mut b, k.before.y);
    be_i32(&mut b, k.before.x);
    be_i32(&mut b, k.anchor.y);
    be_i32(&mut b, k.anchor.x);
    be_i32(&mut b, k.after.y);
    be_i32(&mut b, k.after.x);
    assert(b@ =~= knot_body(k));
    b
}

/// Knot records take 26 bytes each.
proof fn lemma_knot_records_len(knots: Seq<PathKnot>, closed: bool)
    ensures
        knot_records(knots, closed).len() == 26 * knots.len(),
    decreases knots.len(),
{
    if knots.len() > 0 {
        lemma_knot_records_len(knots.drop_last(), closed);
        lemma_knot_record_bytes(knots.last(), closed);
    }
}

/// Append one subpath record and the records of knots `from .. from + size`.
#[verifier::spinoff_prover]
#[verifier::rlimit(40)]
fn append_subpath(out: &mut Vec<u8>, knots: &[PathKnot], from: usize, size: usize, closed: bool)
    requires
        from + size <= knots@.len(),
        size <= 65535,
        old(out)@.len() + 26 * size + 26 <= usize::MAX,
    ensures
        final(out)@ == old(out)@ + subpath_records(knots@.subrange(from as int, from + size), closed),
        final(out)@.len() == old(out)@.len() + 26 * size + 26,
{
    let ghost chunk = knots@.subrange(from as int, from + size);
    let count: [u8; 2] = [(size / 256) as u8, (size % 256) as u8];
    assert(count@ == be16_bytes(size as int));
    record(out, if closed { 0 } else { 3 }, &count);
    let ghost head = out@;
    let kl = knots.len();
    let mut j: usize = 0;
    while j < size
        invariant
            j <= size,
            kl == knots@.len(),
            from + size <= knots@.len(),
            chunk == knots@.subrange(from as int, from + size),
            head.len() + 26 * size <= usize::MAX,
            out@ == head + knot_records(chunk.take(j as int), closed),
        decreases size - j,
    {
        proof {
            lemma_knot_records_len(chunk.take(j as int), closed);
        }
        let k = knots[from + j];
        assert(k == chunk[j as int]);
        let body = knot_body_bytes(k);
        let ghost mid = out@;
        record(out, if closed { 2 } else { 5 }, body.as_slice());
        proof {
            let next = chunk.take(j + 1);
            assert(next.drop_last() =~= chunk.take(j as int));
            assert(next.last() == k);
            reveal(knot_record);
            assert(knot_records(next, closed) == knot_records(chunk.take(j as int), closed)
                + knot_record(k, closed));
            assert(out@ == mid + record_bytes(knot_kind(closed), knot_body(k)));
            assert(out@ =~= head + knot_records(next, closed));
        }
        j += 1;
    }
    assert(chunk.take(size as int) =~= chunk);
    proof {
        lemma_knot_records_len(chunk, closed);
    }
}

/// Append the path records of `knots`: one subpath, or more for paths of
/// over 65535 knots.
pub fn append(out: &mut Vec<u8>, knots: &[PathKnot], closed: bool)
    requires
        old(out)@.len() + 52 * knots@.len() + 26 <= usize::MAX,
    ensures
        final(out)@ == old(out)@ + path_bytes(knots@, closed),
{
    let ghost start = out@;
    let n = knots.len();
    let mut from: usize = 0;
    assert(knots@.skip(0) =~= knots@);
    while from < n
        invariant
            from <= n,
            n == knots@.len(),
            start == old(out)@,
            start.len() + 52 * n + 26 <= usize::MAX,
            out@.len() <= start.len() + 52 * from,
            start + path_bytes(knots@, closed) == out@ + path_bytes(knots@.skip(from as int), closed),
        decreases n - from,
    {
        let size: usize = if n - from > 65535 { 65535 } else { n - from };
        let ghost rest = knots@.skip(from as int);
        let ghost before = out@;
        append_subpath(out, knots, from, size, closed);
        proof {
            if rest.len() > 65535 {
                assert(rest.take(65535) =~= knots@.subrange(from as int, from + size));
                assert(rest.skip(65535) =~= knots@.skip(from + 65535));
            } else {
                assert(rest =~= knots@.subrange(from as int, from + size));
                assert(knots@.skip(from + size) =~= Seq::<PathKnot>::empty());
            }
            assert(start + path_bytes(knots@, closed) == out@ + path_bytes(knots@.skip(from + size), closed));
        }
        from += size;
    }
    proof {
        assert(knots@.skip(n as int) =~= Seq::<PathKnot>::empty());
        assert(out@ + seq![] =~= out@);
    }
}

/// Knot records split as the first record and the rest.
proof fn lemma_knot_records_first(knots: Seq<PathKnot>, closed: bool)
    requires
        knots.len() > 0,
    ensures
        knot_records(knots, closed) == knot_record(knots[0], closed) + knot_records(knots.drop_first(), closed),
    decreases knots.len(),
{
    if knots.len() == 1 {
        assert(knots.drop_last() =~= Seq::<PathKnot>::empty());
        assert(knots.drop_first() =~= Seq::<PathKnot>::empty());
        assert(knots.last() == knots[0]);
        assert(knot_records(knots.drop_last(), closed) =~= Seq::<u8>::empty());
        assert(knot_records(knots, closed) =~= knot_record(knots[0], closed));
    } else {
        lemma_knot_records_first(knots.drop_last(), closed);
        assert(knots.drop_first().drop_last() =~= knots.drop_last().drop_first());
        assert(knots.drop_first().last() == knots.last());
        assert(knots.drop_last()[0] == knots[0]);
        assert(knot_records(knots, closed) =~= knot_record(knots[0], closed) + knot_records(knots.drop_first(), closed));
    }
}

/// A coordinate written by [`i32_be`] reads back as the same value.
proof fn lemma_i32_round_trip(s: Seq<u8>, q: int, v: i32)
    requires
        0 <= q,
        q + 4 <= s.len(),
        s.subrange(q, q + 4) == i32_be(v),
    ensures
        fixed_at(s, q) == v,
{
    let u: int = if v < 0 { v + 0x1_0000_0000 } else { v as int };
    crate::export::lemma_be_round_trip(0, u as u32);
    let b = be32_bytes(u);
    assert(s[q] == b[0] && s[q + 1] == b[1] && s[q + 2] == b[2] && s[q + 3] == b[3]) by {
        assert(s.subrange(q, q + 4)[0] == s[q]);
        assert(s.subrange(q, q + 4)[1] == s[q + 1]);
        assert(s.subrange(q, q + 4)[2] == s[q + 2]);
        assert(s.subrange(q, q + 4)[3] == s[q + 3]);
    }
    assert(be32(s, q) == be32(b, 0));
}

/// Knot records written by [`append`] read back as the same knots.
proof fn lemma_knots_read_back(s: Seq<u8>, p: int, knots: Seq<PathKnot>, closed: bool, acc: Seq<PathKnot>)
    requires
        0 <= p,
        p + 26 * knots.len() <= s.len(),
        s.subrange(p, p + 26 * knots.len()) == knot_records(knots, closed),
    ensures
        path_knots(s, p, knots.len() as nat, subpath_kind(closed), acc) == Ok::<Seq<PathKnot>, Seq<char>>(acc + knots),
    decreases knots.len(),
{
    if knots.len() == 0 {
        assert(acc + knots =~= acc);
    } else {
        let k = knots[0];
        let rest = knots.drop_first();
        lemma_knot_records_first(knots, closed);
        lemma_knot_records_len(rest, closed);
        lemma_knot_record_bytes(k, closed);
        let r = knot_record(k, closed);
        let all = knot_records(knots, closed);
        assert(s.subrange(p, p + 26) =~= r) by {
            assert forall|i: int| 0 <= i < 26 implies s.subrange(p, p + 26)[i] == r[i] by {
                assert(s.subrange(p, p + 26 * knots.len())[i] == all[i]);
            }
        }
        assert(s.subrange(p + 26, p + 26 * knots.len()) =~= knot_records(rest, closed)) by {
            assert forall|i: int| 0 <= i < 26 * rest.len() implies s.subrange(p + 26, p + 26 * knots.len())[i] == knot_records(rest, closed)[i] by {
                assert(s.subrange(p, p + 26 * knots.len())[26 + i] == all[26 + i]);
            }
        }
        lemma_read_record(s, p, r, k, closed);
        lemma_knots_read_back(s, p + 26, rest, closed, acc.push(k));
        assert(acc.push(k) + rest =~= acc + knots);
    }
}

/// A knot record read where it was written gives its selector and knot.
#[verifier::spinoff_prover]
#[verifier::rlimit(40)]
proof fn lemma_read_record(s: Seq<u8>, p: int, r: Seq<u8>, k: PathKnot, closed: bool)
    requires
        0 <= p,
        p + 26 <= s.len(),
        r == knot_record(k, closed),
        s.subrange(p, p + 26) == r,
    ensures
        be16(s, p) == knot_kind(closed),
        knot_at(s, p) == k,
{
    lemma_knot_record_bytes(k, closed);
    assert(s[p] == r[0] && s[p + 1] == r[1]) by {
        assert(s.subrange(p, p + 26)[0] == s[p]);
        assert(s.subrange(p, p + 26)[1] == s[p + 1]);
    }
    let w = s.subrange(p, p + 26);
    assert(s.subrange(p + 2, p + 6) =~= w.subrange(2, 6));
    assert(s.subrange(p + 6, p + 10) =~= w.subrange(6, 10));
    assert(s.subrange(p + 10, p + 14) =~= w.subrange(10, 14));
    assert(s.subrange(p + 14, p + 18) =~= w.subrange(14, 18));
    assert(s.subrange(p + 18, p + 22) =~= w.subrange(18, 22));
    assert(s.subrange(p + 22, p + 26) =~= w.subrange(22, 26));
    lemma_i32_round_trip(s, p + 2, k.before.y);
    lemma_i32_round_trip(s, p + 6, k.before.x);
    lemma_i32_round_trip(s, p + 10, k.anchor.y);
    lemma_i32_round_trip(s, p + 14, k.anchor.x);
    lemma_i32_round_trip(s, p + 18, k.after.y);
    lemma_i32_round_trip(s, p + 22, k.after.x);
}
/// The bytes of a record header: its kind, then two 16-bit fields, then
/// zeros.
proof fn lemma_header_bytes(kind: int, v: int)
    requires
        0 <= kind < 0x1_0000,
        0 <= v < 0x1_0000,
    ensures
        record_bytes(kind, be16_bytes(v)).len() == 26,
        be16(record_bytes(kind, be16_bytes(v)), 0) == kind,
        be16(record_bytes(kind, be16_bytes(v)), 2) == v,
        be16(record_bytes(kind, be16_bytes(v)), 4) == 0,
{
    crate::export::lemma_be_round_trip(kind as u16, 0);
    crate::export::lemma_be_round_trip(v as u16, 0);
    let h = record_bytes(kind, be16_bytes(v));
    assert(h[0] == be16_bytes(kind)[0] && h[1] == be16_bytes(kind)[1]);
    assert(h[2] == be16_bytes(v)[0] && h[3] == be16_bytes(v)[1]);
    assert(h[4] == 0 && h[5] == 0);
}

/// The records of a path written by [`append`] read back as its subpaths.
#[verifier::spinoff_prover]
#[verifier::rlimit(60)]
proof fn lemma_paths_read_back(s: Seq<u8>, pos: int, knots: Seq<PathKnot>, closed: bool, acc: Seq<SubpathView>, fill: bool, total: int)
    requires
        0 <= pos <= s.len(),
        s.subrange(pos, s.len() as int) == path_bytes(knots, closed),
        0 <= total,
        total + knots.len() <= 100_000,
        acc.len() + (if knots.len() == 0 { 0int } else if knots.len() > 65535 { 2int } else { 1int }) <= 4096,
    ensures
        path_records(s, pos, acc, fill, total) == Ok::<(Seq<SubpathView>, bool), Seq<char>>((acc + path_chunks(knots, closed), fill)),
    decreases knots.len(),
{
    if knots.len() == 0 {
        assert(s.subrange(pos, s.len() as int).len() == 0);
        assert(!crate::import::psd::vectors::nonzero_from(s, pos));
        assert(acc + path_chunks(knots, closed) =~= acc);
    } else {
        let chunk = if knots.len() <= 65535 { knots } else { knots.take(65535) };
        let rest = if knots.len() <= 65535 { Seq::<PathKnot>::empty() } else { knots.skip(65535) };
        let c = chunk.len() as int;
        let h = record_bytes(subpath_kind(closed), be16_bytes(c));
        let recs = knot_records(chunk, closed);
        lemma_header_bytes(subpath_kind(closed), c);
        lemma_knot_records_len(chunk, closed);
        assert(path_bytes(knots, closed) =~= h + recs + path_bytes(rest, closed)) by {
            if knots.len() > 65535 {
                assert(path_bytes(knots, closed) == subpath_records(knots.take(65535), closed) + path_bytes(knots.skip(65535), closed));
            } else {
                assert(path_bytes(rest, closed) =~= Seq::<u8>::empty());
            }
        }
        let tail = s.subrange(pos, s.len() as int);
        assert(s.len() - pos >= 26);
        assert forall|i: int| 0 <= i < 26 implies s[pos + i] == h[i] by {
            assert(tail[i] == s[pos + i]);
        }
        assert(be16(s, pos) == subpath_kind(closed));
        assert(be16(s, pos + 2) == c);
        assert(be16(s, pos + 4) == 0);
        assert(s.subrange(pos + 26, pos + 26 + 26 * c) =~= recs) by {
            assert forall|i: int| 0 <= i < 26 * c implies s.subrange(pos + 26, pos + 26 + 26 * c)[i] == recs[i] by {
                assert(tail[26 + i] == s[pos + 26 + i]);
            }
        }
        lemma_knots_read_back(s, pos + 26, chunk, closed, seq![]);
        assert(Seq::<PathKnot>::empty() + chunk =~= chunk);
        let next = pos + 26 + 26 * c;
        assert(s.subrange(next, s.len() as int) =~= path_bytes(rest, closed)) by {
            assert forall|i: int| 0 <= i < s.len() - next implies s.subrange(next, s.len() as int)[i] == path_bytes(rest, closed)[i] by {
                assert(tail[26 + 26 * c + i] == s[next + i]);
            }
        }
        let view = SubpathView { knots: chunk, closed, operation: 0 };
        assert(rest.len() <= 65535);
        assert(acc.push(view).len() == acc.len() + 1);
        lemma_paths_read_back(s, next, rest, closed, acc.push(view), fill, total + c);
        assert(path_chunks(knots, closed) =~= seq![view] + path_chunks(rest, closed)) by {
            if knots.len() <= 65535 {
                assert(path_chunks(rest, closed) =~= Seq::<SubpathView>::empty());
            }
        }
        assert(acc.push(view) + path_chunks(rest, closed) =~= acc + path_chunks(knots, closed));
    }
}

/// What [`append`] writes after the opening [`blank`] record reads back as
/// the same knots, one subpath per 65535 of them, with the even-odd fill
/// rule, for paths the reader accepts (up to 100 000 knots).
pub proof fn lemma_path_round_trip(knots: Seq<PathKnot>, closed: bool)
    requires
        knots.len() <= 100_000,
    ensures
        psd_paths(record_bytes(6, seq![]) + path_bytes(knots, closed))
            == Ok::<(Seq<SubpathView>, bool), Seq<char>>((path_chunks(knots, closed), false)),
{
    let b = record_bytes(6, seq![]);
    let s = b + path_bytes(knots, closed);
    crate::export::lemma_be_round_trip(6, 0);
    assert(b.len() == 26);
    assert(s[0] == b[0] && s[1] == b[1]);
    assert(be16(s, 0) == 6);
    assert(s.subrange(26, s.len() as int) =~= path_bytes(knots, closed));
    lemma_paths_read_back(s, 26, knots, closed, seq![], false, 0);
    assert(Seq::<SubpathView>::empty() + path_chunks(knots, closed) =~= path_chunks(knots, closed));
}

/// A stroke's centerline as path knots, with its label.
#[derive(Debug, Clone)]
pub struct StrokePath {
    pub label: String,
    pub knots: Vec<PathKnot>,
    pub closed: bool,
}

/// The stroke paths of one layer.
#[derive(Debug, Clone)]
pub struct LayerPaths {
    pub id: u64,
    pub strokes: Vec<StrokePath>,
}

/// The number of strokes of all layers.
pub open spec fn stroke_total(layers: Seq<LayerPaths>) -> int
    decreases layers.len(),
{
    if layers.len() == 0 { 0 } else { stroke_total(layers.drop_last()) + layers.last().strokes@.len() }
}

/// The resource name of stroke `n` (counted from 1) of layer `layer_id`.
pub open spec fn stroke_name(layer_id: u64, n: int, label: Seq<char>) -> Seq<char> {
    "Layer "@ + decimal(layer_id as nat) + " - "@ + decimal(n as nat) + " "@ + label
}

/// The resource name of the combined paths of layer `layer_id`.
pub open spec fn layer_paths_name(layer_id: u64) -> Seq<char> {
    "Layer "@ + decimal(layer_id as nat) + " - paths"@
}

/// The path record that opens every path resource.
pub open spec fn blank_bytes() -> Seq<u8> {
    record_bytes(6, seq![])
}

/// One resource per stroke with a centerline among the first `n` strokes of
/// a layer, ids counted from `id`; the bytes and the next id.
pub open spec fn separate_resources(layer_id: u64, strokes: Seq<StrokePath>, n: int, id: int) -> (Seq<u8>, int)
    decreases n,
{
    if n <= 0 {
        (seq![], id)
    } else {
        let (before, next) = separate_resources(layer_id, strokes, n - 1, id);
        let st = strokes[n - 1];
        if st.knots@.len() == 0 {
            (before, next)
        } else {
            (before + resource_bytes(next, stroke_name(layer_id, n, st.label@), blank_bytes() + path_bytes(st.knots@, st.closed)), next + 1)
        }
    }
}

/// The combined path of the first `n` strokes of a layer.
pub open spec fn combined_path(strokes: Seq<StrokePath>, n: int) -> Seq<u8>
    decreases n,
{
    if n <= 0 {
        blank_bytes()
    } else {
        let before = combined_path(strokes, n - 1);
        let st = strokes[n - 1];
        if st.knots@.len() == 0 { before } else { before + path_bytes(st.knots@, st.closed) }
    }
}

/// The path resources of the first `n` layers, starting at id 2000: one
/// per stroke when the drawing has at most 998 strokes, else one per layer
/// while ids last; the bytes and the next id.
pub open spec fn path_resources(layers: Seq<LayerPaths>, n: int, separate: bool) -> (Seq<u8>, int)
    decreases n,
{
    if n <= 0 {
        (seq![], 2000)
    } else {
        let (before, id) = path_resources(layers, n - 1, separate);
        let l = layers[n - 1];
        if separate {
            let (r, next) = separate_resources(l.id, l.strokes@, l.strokes@.len() as int, id);
            (before + r, next)
        } else {
            let c = combined_path(l.strokes@, l.strokes@.len() as int);
            if c.len() > 26 && id < 2998 {
                (before + resource_bytes(id, layer_paths_name(l.id), c), id + 1)
            } else {
                (before, id)
            }
        }
    }
}

/// Bytes needed by the paths of the first `n` strokes, with room to spare.
pub open spec fn path_room(strokes: Seq<StrokePath>, n: int) -> int
    decreases n,
{
    if n <= 0 { 26 } else { path_room(strokes, n - 1) + 52 * strokes[n - 1].knots@.len() + 26 }
}

/// The path bytes of `knots` take at most 52 bytes per knot.
proof fn lemma_path_bytes_len(knots: Seq<PathKnot>, closed: bool)
    ensures
        path_bytes(knots, closed).len() <= 52 * knots.len(),
    decreases knots.len(),
{
    if knots.len() > 0 {
        if knots.len() <= 65535 {
            lemma_knot_records_len(knots, closed);
        } else {
            lemma_knot_records_len(knots.take(65535), closed);
            lemma_path_bytes_len(knots.skip(65535), closed);
        }
    }
}

/// The combined path fits its room, and the room grows with the strokes.
proof fn lemma_combined_room(strokes: Seq<StrokePath>, n: int, m: int)
    requires
        0 <= n <= m <= strokes.len(),
    ensures
        combined_path(strokes, n).len() <= path_room(strokes, n),
        26 <= path_room(strokes, n) <= path_room(strokes, m),
        n < m ==> path_room(strokes, n) + 52 * strokes[n].knots@.len() + 26 <= path_room(strokes, m),
    decreases m, n,
{
    if n < m {
        lemma_combined_room(strokes, n, m - 1);
    } else if n > 0 {
        lemma_combined_room(strokes, n - 1, n);
        lemma_path_bytes_len(strokes[n - 1].knots@, strokes[n - 1].closed);
    }
}

/// The characters of `s` appended to `out`.
fn push_chars(out: &mut Vec<char>, s: &str)
    ensures
        final(out)@ == old(out)@ + s@,
{
    let c = str_chars(s);
    let mut i: usize = 0;
    while i < c.len()
        invariant
            i <= c@.len(),
            c@ == s@,
            out@ == old(out)@ + c@.take(i as int),
        decreases c@.len() - i,
    {
        out.push(c[i]);
        assert(c@.take(i + 1) =~= c@.take(i as int).push(c@[i as int]));
        i += 1;
    }
    assert(c@.take(c@.len() as int) =~= c@);
}

/// The strokes of the first `k` layers add up as the layers are counted.
proof fn lemma_stroke_total_grows(layers: Seq<LayerPaths>, k: int)
    requires
        0 <= k <= layers.len(),
    ensures
        0 <= stroke_total(layers.take(k)) <= stroke_total(layers),
        k < layers.len() ==> stroke_total(layers.take(k + 1)) == stroke_total(layers.take(k)) + layers[k].strokes@.len(),
        k == layers.len() ==> stroke_total(layers.take(k)) == stroke_total(layers),
    decreases layers.len() - k,
{
    if k < layers.len() {
        assert(layers.take(k + 1).drop_last() =~= layers.take(k));
        lemma_stroke_total_grows(layers, k + 1);
    } else {
        assert(layers.take(k) =~= layers);
    }
    lemma_stroke_total_nonnegative(layers.take(k));
}

proof fn lemma_stroke_total_nonnegative(layers: Seq<LayerPaths>)
    ensures
        stroke_total(layers) >= 0,
    decreases layers.len(),
{
    if layers.len() > 0 {
        lemma_stroke_total_nonnegative(layers.drop_last());
    }
}

/// The resource name of stroke `n` of layer `layer_id`.
fn stroke_name_string(layer_id: u64, n: u64, label: &str) -> (s: String)
    ensures
        s@ == stroke_name(layer_id, n as int, label@),
{
    let mut c = str_chars("Layer ");
    push_decimal(&mut c, layer_id);
    push_chars(&mut c, " - ");
    push_decimal(&mut c, n);
    push_chars(&mut c, " ");
    push_chars(&mut c, label);
    string_from_chars(c.as_slice())
}

/// The resource name of the combined paths of layer `layer_id`.
fn layer_paths_name_string(layer_id: u64) -> (s: String)
    ensures
        s@ == layer_paths_name(layer_id),
{
    let mut c = str_chars("Layer ");
    push_decimal(&mut c, layer_id);
    push_chars(&mut c, " - paths");
    string_from_chars(c.as_slice())
}

/// Whether the drawing has at most 998 strokes, so that each can have a
/// path resource of its own.
fn few_strokes(layers: &[LayerPaths]) -> (b: bool)
    ensures
        b == (stroke_total(layers@) <= 998),
{
    let mut total: usize = 0;
    let mut li: usize = 0;
    while li < layers.len()
        invariant
            li <= layers@.len(),
            total == (if stroke_total(layers@.take(li as int)) > 998 { 999 } else { stroke_total(layers@.take(li as int)) }),
        decreases layers@.len() - li,
    {
        proof {
            lemma_stroke_total_grows(layers@, li as int);
        }
        let n = layers[li].strokes.len();
        total = if n > 998 || total + n > 998 { 999 } else { total + n };
        li += 1;
    }
    proof {
        lemma_stroke_total_grows(layers@, layers@.len() as int);
    }
    total <= 998
}

/// Append the resources of one layer's strokes; the next id is returned.
fn layer_resources(out: &mut Vec<u8>, layer: &LayerPaths, id: u16, separate: bool) -> (next: u16)
    requires
        path_room(layer.strokes@, layer.strokes@.len() as int) <= usize::MAX,
        separate ==> id + layer.strokes@.len() <= 2998,
        !separate ==> id <= 2998,
    ensures
        separate ==> final(out)@ == old(out)@ + separate_resources(layer.id, layer.strokes@, layer.strokes@.len() as int, id as int).0
            && next == separate_resources(layer.id, layer.strokes@, layer.strokes@.len() as int, id as int).1,
        !separate ==> {
            let c = combined_path(layer.strokes@, layer.strokes@.len() as int);
            &&& c.len() > 26 && id < 2998 ==> final(out)@ == old(out)@ + resource_bytes(id as int, layer_paths_name(layer.id), c) && next == id + 1
            &&& !(c.len() > 26 && id < 2998) ==> final(out)@ == old(out)@ && next == id
        },
        next <= 2998,
        separate ==> next <= id + layer.strokes@.len(),
{
    let ghost strokes = layer.strokes@;
    let ghost start = out@;
    let mut combined = blank();
    let mut next = id;
    let mut si: usize = 0;
    while si < layer.strokes.len()
        invariant
            si <= strokes.len(),
            strokes == layer.strokes@,
            path_room(strokes, strokes.len() as int) <= usize::MAX,
            separate ==> id + strokes.len() <= 2998,
            separate ==> out@ == start + separate_resources(layer.id, strokes, si as int, id as int).0
                && next == separate_resources(layer.id, strokes, si as int, id as int).1
                && next <= id + si,
            !separate ==> out@ == start && next == id && combined@ == combined_path(strokes, si as int),
        decreases strokes.len() - si,
    {
        proof {
            lemma_combined_room(strokes, si as int, strokes.len() as int);
        }
        let st = &layer.strokes[si];
        if st.knots.len() == 0 {
            si += 1;
            continue;
        }
        if separate {
            let mut path = blank();
            append(&mut path, st.knots.as_slice(), st.closed);
            let name = stroke_name_string(layer.id, (si + 1) as u64, st.label.as_str());
            resource(out, next, name.as_str(), path.as_slice());
            next = next + 1;
        } else {
            append(&mut combined, st.knots.as_slice(), st.closed);
        }
        si += 1;
    }
    if !separate && combined.len() > 26 && next < 2998 {
        let name = layer_paths_name_string(layer.id);
        resource(out, next, name.as_str(), combined.as_slice());
        next = next + 1;
    }
    next
}

/// Append the path resources of the drawing's layers: each stroke's
/// centerline as its own path when the drawing has at most 998 strokes,
/// else each layer's strokes combined into one path while ids last.
#[verifier::spinoff_prover]
#[verifier::rlimit(40)]
pub fn resources(out: &mut Vec<u8>, layers: &[LayerPaths])
    requires
        forall|i: int| 0 <= i < layers@.len() ==>
            #[trigger] path_room(layers@[i].strokes@, layers@[i].strokes@.len() as int) <= usize::MAX,
    ensures
        final(out)@ == old(out)@ + path_resources(layers@, layers@.len() as int, stroke_total(layers@) <= 998).0,
{
    let separate = few_strokes(layers);
    let ghost all = layers@;
    let mut id: u16 = 2000;
    let mut li: usize = 0;
    while li < layers.len()
        invariant
            li <= all.len(),
            all == layers@,
            separate == (stroke_total(all) <= 998),
            forall|i: int| 0 <= i < all.len() ==>
                #[trigger] path_room(all[i].strokes@, all[i].strokes@.len() as int) <= usize::MAX,
            out@ == old(out)@ + path_resources(all, li as int, separate).0,
            id == path_resources(all, li as int, separate).1,
            separate ==> id <= 2000 + stroke_total(all.take(li as int)),
            id <= 2998,
        decreases all.len() - li,
    {
        proof {
            lemma_stroke_total_grows(all, li as int);
            lemma_stroke_total_grows(all, li as int + 1);
            assert(path_room(all[li as int].strokes@, all[li as int].strokes@.len() as int) <= usize::MAX);
        }
        let ghost before = out@;
        let ghost prev = path_resources(all, li as int, separate);
        id = layer_resources(out, &layers[li], id, separate);
        proof {
            let l = all[li as int];
            if separate {
                let r = separate_resources(l.id, l.strokes@, l.strokes@.len() as int, prev.1);
                assert(path_resources(all, li + 1, separate) == (prev.0 + r.0, r.1));
                assert(out@ =~= old(out)@ + path_resources(all, li + 1, separate).0);
            } else {
                let c = combined_path(l.strokes@, l.strokes@.len() as int);
                if c.len() > 26 && prev.1 < 2998 {
                    assert(path_resources(all, li + 1, separate) == (prev.0 + resource_bytes(prev.1, layer_paths_name(l.id), c), prev.1 + 1));
                    assert(out@ =~= old(out)@ + path_resources(all, li + 1, separate).0);
                } else {
                    assert(path_resources(all, li + 1, separate) == prev);
                }
            }
        }
        li += 1;
    }
}
/// The bytes of the four keys of a solid color descriptor.
proof fn lemma_color_keys()
    ensures
        "Clr ".spec_bytes() == seq![0x43u8, 0x6Cu8, 0x72u8, 0x20u8],
        "Rd  ".spec_bytes() == seq![0x52u8, 0x64u8, 0x20u8, 0x20u8],
        "Grn ".spec_bytes() == seq![0x47u8, 0x72u8, 0x6Eu8, 0x20u8],
        "Bl  ".spec_bytes() == seq![0x42u8, 0x6Cu8, 0x20u8, 0x20u8],
{
    reveal_strlit("Clr ");
    reveal_strlit("Rd  ");
    reveal_strlit("Grn ");
    reveal_strlit("Bl  ");
    vstd::string::is_ascii_spec_bytes("Clr ");
    vstd::string::is_ascii_spec_bytes("Rd  ");
    vstd::string::is_ascii_spec_bytes("Grn ");
    vstd::string::is_ascii_spec_bytes("Bl  ");
    assert("Clr ".spec_bytes() =~= seq![0x43u8, 0x6Cu8, 0x72u8, 0x20u8]);
    assert("Rd  ".spec_bytes() =~= seq![0x52u8, 0x64u8, 0x20u8, 0x20u8]);
    assert("Grn ".spec_bytes() =~= seq![0x47u8, 0x72u8, 0x6Eu8, 0x20u8]);
    assert("Bl  ".spec_bytes() =~= seq![0x42u8, 0x6Cu8, 0x20u8, 0x20u8]);
}

/// The bit pattern of a byte value fits in 64 bits.
proof fn lemma_f64_bits_range(v: u8)
    ensures
        0 <= f64_bits(v as int) < 0x1_0000_0000_0000_0000,
{
    vstd::arithmetic::power2::lemma2_to64();
    vstd::arithmetic::power2::lemma2_to64_rest();
    if v != 0 {
        let g = v as int;
        let e = byte_exponent(g);
        let lead = pow2(e);
        let scale = pow2((52 - e) as nat);
        assert(lead <= g < 2 * lead && lead * scale == 0x10_0000_0000_0000) by {
            if e == 7 { assert(lead * scale == 0x10_0000_0000_0000) by (nonlinear_arith) requires lead == 128, scale == 0x2000_0000_0000; }
            if e == 6 { assert(lead * scale == 0x10_0000_0000_0000) by (nonlinear_arith) requires lead == 64, scale == 0x4000_0000_0000; }
            if e == 5 { assert(lead * scale == 0x10_0000_0000_0000) by (nonlinear_arith) requires lead == 32, scale == 0x8000_0000_0000; }
            if e == 4 { assert(lead * scale == 0x10_0000_0000_0000) by (nonlinear_arith) requires lead == 16, scale == 0x1_0000_0000_0000; }
            if e == 3 { assert(lead * scale == 0x10_0000_0000_0000) by (nonlinear_arith) requires lead == 8, scale == 0x2_0000_0000_0000; }
            if e == 2 { assert(lead * scale == 0x10_0000_0000_0000) by (nonlinear_arith) requires lead == 4, scale == 0x4_0000_0000_0000; }
            if e == 1 { assert(lead * scale == 0x10_0000_0000_0000) by (nonlinear_arith) requires lead == 2, scale == 0x8_0000_0000_0000; }
            if e == 0 { assert(lead * scale == 0x10_0000_0000_0000) by (nonlinear_arith) requires lead == 1, scale == 0x10_0000_0000_0000; }
        }
        assert(0 <= (g - lead) * scale < 0x10_0000_0000_0000) by (nonlinear_arith)
            requires lead <= g < 2 * lead, lead * scale == 0x10_0000_0000_0000, scale > 0;
        assert(e <= 7);
        assert(0 <= (1023 + e) * pow2(52) <= 1030 * 0x10_0000_0000_0000) by (nonlinear_arith)
            requires e <= 7, pow2(52) == 0x10_0000_0000_0000;
    }
}

/// A key written by [`id_bytes`] reads back.
proof fn lemma_read_key(s: Seq<u8>, p: int, key: Seq<u8>)
    requires
        0 <= p,
        p + 8 <= s.len(),
        key.len() == 4,
        s.subrange(p, p + 8) == id_bytes(key),
    ensures
        d_identifier(s, p) == Ok::<(Seq<u8>, int), Seq<char>>((key, p + 8)),
{
    let w = s.subrange(p, p + 8);
    assert(s[p] == w[0] && s[p + 1] == w[1] && s[p + 2] == w[2] && s[p + 3] == w[3]);
    assert(be32(s, p) == 0);
    assert forall|i: int| 0 <= i < 4 implies s.subrange(p + 4, p + 8)[i] == key[i] by {
        assert(w[4 + i] == s[p + 4 + i]);
        assert(w[4 + i] == (be32_bytes(0) + key)[4 + i]);
    }
    assert(s.subrange(p + 4, p + 8) =~= key);
}

/// A descriptor header written by [`descriptor_bytes`] reads back.
proof fn lemma_read_header(s: Seq<u8>, p: int, class: Seq<u8>, count: int)
    requires
        0 <= p,
        p + 16 <= s.len(),
        class.len() == 4,
        0 <= count < 0x1_0000_0000,
        s.subrange(p, p + 16) == descriptor_bytes(class, count),
    ensures
        d_unicode(s, p) == Ok::<int, Seq<char>>(p + 4),
        d_identifier(s, p + 4) == Ok::<(Seq<u8>, int), Seq<char>>((class, p + 12)),
        be32(s, p + 12) == count,
{
    let w = s.subrange(p, p + 16);
    assert(s[p] == w[0] && s[p + 1] == w[1] && s[p + 2] == w[2] && s[p + 3] == w[3]);
    assert forall|i: int| 0 <= i < 8 implies s.subrange(p + 4, p + 12)[i] == id_bytes(class)[i] by {
        assert(w[4 + i] == s[p + 4 + i]);
        assert(w[4 + i] == (be32_bytes(0) + id_bytes(class) + be32_bytes(count))[4 + i]);
    }
    assert(s.subrange(p + 4, p + 12) =~= id_bytes(class));
    lemma_read_key(s, p + 4, class);
    crate::export::lemma_be_round_trip(0, count as u32);
    assert(s[p + 12] == w[12] && s[p + 13] == w[13] && s[p + 14] == w[14] && s[p + 15] == w[15]);
}

/// A color item written by [`color_item`] reads back as its key and a
/// binary64 value.
proof fn lemma_read_color_item(s: Seq<u8>, p: int, key: Seq<u8>, v: u8, depth: int, budget: int)
    requires
        0 <= p,
        p + 20 <= s.len(),
        key.len() == 4,
        s.subrange(p, p + 20) == color_item(key, v),
        0 <= budget < 20000,
        depth <= 24,
    ensures
        d_identifier(s, p) == Ok::<(Seq<u8>, int), Seq<char>>((key, p + 8)),
        d_value(s, p + 8, depth, budget) == Ok::<(ValueView, int, int), Seq<char>>(
            (ValueView::Double(f64_bits(v as int) as u64), p + 20, budget + 1)),
{
    let w = s.subrange(p, p + 20);
    let tag = s.subrange(p + 8, p + 12);
    let doub = seq![0x64u8, 0x6Fu8, 0x75u8, 0x62u8];
    assert forall|i: int| 0 <= i < 8 implies s.subrange(p, p + 8)[i] == id_bytes(key)[i] by {
        assert(w[i] == s[p + i]);
        assert(w[i] == (id_bytes(key) + doub + be64_bytes(f64_bits(v as int)))[i]);
    }
    assert(s.subrange(p, p + 8) =~= id_bytes(key));
    lemma_read_key(s, p, key);
    assert forall|i: int| 0 <= i < 4 implies tag[i] == doub[i] by {
        assert(w[8 + i] == s[p + 8 + i]);
        assert(w[8 + i] == (id_bytes(key) + doub + be64_bytes(f64_bits(v as int)))[8 + i]);
    }
    assert(tag =~= doub);
    assert(tag[0] != crate::import::psd::descriptor::tag_objc()[0]);
    assert(tag[0] != crate::import::psd::descriptor::tag_glbo()[0]);
    assert(tag[0] != crate::import::psd::descriptor::tag_vlls()[0]);
    lemma_f64_bits_range(v);
    let x = f64_bits(v as int) as u64;
    crate::project::lemma_be64_round_trip(x);
    let b = be64_bytes(x as int);
    assert forall|i: int| 0 <= i < 8 implies s.subrange(p + 12, p + 20)[i] == b[i] by {
        assert(w[12 + i] == s[p + 12 + i]);
        assert(w[12 + i] == (id_bytes(key) + doub + b)[12 + i]);
    }
    assert(s.subrange(p + 12, p + 20) =~= b);
    assert forall|i: int| 0 <= i < 8 implies s[p + 12 + i] == b[i] by {
        assert(s.subrange(p + 12, p + 20)[i] == s[p + 12 + i]);
    }
    assert(bits64(s, p + 12) == crate::project::be64(b, 0));
}

/// A solid color written by [`solid_color`] reads back, as a shape's fill,
/// as the same red, green and blue, each the binary64 of its byte.
pub proof fn lemma_solid_color_reads_back(rgb: [u8; 3])
    ensures
        w_shape_paint(Some(solid_color_bytes(rgb)), None) == Ok::<ShapePaint, Seq<char>>(ShapePaint {
            fill: Some(ColorModel::Rgb(
                StyleNumber::Double(f64_bits(rgb[0] as int) as u64),
                StyleNumber::Double(f64_bits(rgb[1] as int) as u64),
                StyleNumber::Double(f64_bits(rgb[2] as int) as u64),
            )),
            stroke: None,
        }),
{
    let s = solid_color_bytes(rgb);
    let null = seq![0x6Eu8, 0x75u8, 0x6Cu8, 0x6Cu8];
    let clr = seq![0x43u8, 0x6Cu8, 0x72u8, 0x20u8];
    let rgbc = seq![0x52u8, 0x47u8, 0x42u8, 0x43u8];
    let rd = seq![0x52u8, 0x64u8, 0x20u8, 0x20u8];
    let grn = seq![0x47u8, 0x72u8, 0x6Eu8, 0x20u8];
    let bl = seq![0x42u8, 0x6Cu8, 0x20u8, 0x20u8];
    lemma_solid_color_layout(rgb);
    crate::export::lemma_be_round_trip(0, 16);
    assert(s[0] == be32_bytes(16)[0] && s[1] == be32_bytes(16)[1] && s[2] == be32_bytes(16)[2] && s[3] == be32_bytes(16)[3]);
    lemma_read_header(s, 4, null, 1);
    lemma_read_key(s, 20, clr);
    lemma_read_header(s, 32, rgbc, 3);
    lemma_read_color_item(s, 48, rd, rgb[0], 2, 1);
    lemma_read_color_item(s, 68, grn, rgb[1], 2, 2);
    lemma_read_color_item(s, 88, bl, rgb[2], 2, 3);
    lemma_color_keys();
    lemma_solid_color_parse(s, rgb);
}

/// Where each part of a written solid color stands.
#[verifier::spinoff_prover]
#[verifier::rlimit(100)]
proof fn lemma_solid_color_layout(rgb: [u8; 3])
    ensures
        solid_color_bytes(rgb).len() == 108,
        solid_color_bytes(rgb).subrange(0, 4) == be32_bytes(16),
        solid_color_bytes(rgb).subrange(4, 20) == descriptor_bytes(seq![0x6Eu8, 0x75u8, 0x6Cu8, 0x6Cu8], 1),
        solid_color_bytes(rgb).subrange(20, 28) == id_bytes(seq![0x43u8, 0x6Cu8, 0x72u8, 0x20u8]),
        solid_color_bytes(rgb).subrange(28, 32) == seq![0x4Fu8, 0x62u8, 0x6Au8, 0x63u8],
        solid_color_bytes(rgb).subrange(32, 48) == descriptor_bytes(seq![0x52u8, 0x47u8, 0x42u8, 0x43u8], 3),
        solid_color_bytes(rgb).subrange(48, 68) == color_item(seq![0x52u8, 0x64u8, 0x20u8, 0x20u8], rgb[0]),
        solid_color_bytes(rgb).subrange(68, 88) == color_item(seq![0x47u8, 0x72u8, 0x6Eu8, 0x20u8], rgb[1]),
        solid_color_bytes(rgb).subrange(88, 108) == color_item(seq![0x42u8, 0x6Cu8, 0x20u8, 0x20u8], rgb[2]),
{
    reveal(solid_color_bytes);
    let a = be32_bytes(16);
    let b = descriptor_bytes(seq![0x6Eu8, 0x75u8, 0x6Cu8, 0x6Cu8], 1);
    let c = id_bytes(seq![0x43u8, 0x6Cu8, 0x72u8, 0x20u8]);
    let d = seq![0x4Fu8, 0x62u8, 0x6Au8, 0x63u8];
    let e = descriptor_bytes(seq![0x52u8, 0x47u8, 0x42u8, 0x43u8], 3);
    let f = color_item(seq![0x52u8, 0x64u8, 0x20u8, 0x20u8], rgb[0]);
    let g = color_item(seq![0x47u8, 0x72u8, 0x6Eu8, 0x20u8], rgb[1]);
    let h = color_item(seq![0x42u8, 0x6Cu8, 0x20u8, 0x20u8], rgb[2]);
    let s = a + b + c + d + e + f + g + h;
    assert(s == solid_color_bytes(rgb));
    assert(s.subrange(0, 4) =~= a);
    assert(s.subrange(4, 20) =~= b);
    assert(s.subrange(20, 28) =~= c);
    assert(s.subrange(28, 32) =~= d);
    assert(s.subrange(32, 48) =~= e);
    assert(s.subrange(48, 68) =~= f);
    assert(s.subrange(68, 88) =~= g);
    assert(s.subrange(88, 108) =~= h);
}

/// The parse of a written solid color, step by step.
#[verifier::spinoff_prover]
#[verifier::rlimit(60)]
proof fn lemma_solid_color_parse(s: Seq<u8>, rgb: [u8; 3])
    requires
        s.len() == 108,
        s.subrange(28, 32) == seq![0x4Fu8, 0x62u8, 0x6Au8, 0x63u8],
        be32(s, 0) == 16,
        d_unicode(s, 4) == Ok::<int, Seq<char>>(8),
        d_identifier(s, 8) == Ok::<(Seq<u8>, int), Seq<char>>((seq![0x6Eu8, 0x75u8, 0x6Cu8, 0x6Cu8], 16)),
        be32(s, 16) == 1,
        d_identifier(s, 20) == Ok::<(Seq<u8>, int), Seq<char>>(("Clr ".spec_bytes(), 28)),
        d_unicode(s, 32) == Ok::<int, Seq<char>>(36),
        d_identifier(s, 36) == Ok::<(Seq<u8>, int), Seq<char>>((seq![0x52u8, 0x47u8, 0x42u8, 0x43u8], 44)),
        be32(s, 44) == 3,
        d_identifier(s, 48) == Ok::<(Seq<u8>, int), Seq<char>>(("Rd  ".spec_bytes(), 56)),
        d_value(s, 56, 2, 1) == Ok::<(ValueView, int, int), Seq<char>>((ValueView::Double(f64_bits(rgb[0] as int) as u64), 68, 2)),
        d_identifier(s, 68) == Ok::<(Seq<u8>, int), Seq<char>>(("Grn ".spec_bytes(), 76)),
        d_value(s, 76, 2, 2) == Ok::<(ValueView, int, int), Seq<char>>((ValueView::Double(f64_bits(rgb[1] as int) as u64), 88, 3)),
        d_identifier(s, 88) == Ok::<(Seq<u8>, int), Seq<char>>(("Bl  ".spec_bytes(), 96)),
        d_value(s, 96, 2, 3) == Ok::<(ValueView, int, int), Seq<char>>((ValueView::Double(f64_bits(rgb[2] as int) as u64), 108, 4)),
        "Clr ".spec_bytes() == seq![0x43u8, 0x6Cu8, 0x72u8, 0x20u8],
        "Rd  ".spec_bytes() == seq![0x52u8, 0x64u8, 0x20u8, 0x20u8],
        "Grn ".spec_bytes() == seq![0x47u8, 0x72u8, 0x6Eu8, 0x20u8],
        "Bl  ".spec_bytes() == seq![0x42u8, 0x6Cu8, 0x20u8, 0x20u8],
    ensures
        w_shape_paint(Some(s), None) == Ok::<ShapePaint, Seq<char>>(ShapePaint {
            fill: Some(ColorModel::Rgb(
                StyleNumber::Double(f64_bits(rgb[0] as int) as u64),
                StyleNumber::Double(f64_bits(rgb[1] as int) as u64),
                StyleNumber::Double(f64_bits(rgb[2] as int) as u64),
            )),
            stroke: None,
        }),
{
    let clr = "Clr ".spec_bytes();
    let rd = "Rd  ".spec_bytes();
    let grn = "Grn ".spec_bytes();
    let bl = "Bl  ".spec_bytes();
    let vr = ValueView::Double(f64_bits(rgb[0] as int) as u64);
    let vg = ValueView::Double(f64_bits(rgb[1] as int) as u64);
    let vb = ValueView::Double(f64_bits(rgb[2] as int) as u64);
    let acc1 = Seq::<(Seq<u8>, ValueView)>::empty().push((rd, vr));
    let acc2 = acc1.push((grn, vg));
    let acc3 = acc2.push((bl, vb));
    assert(d_entries(s, 108, 0, 1, 4, acc3) == Ok::<(Seq<(Seq<u8>, ValueView)>, int, int), Seq<char>>((acc3, 108, 4)));
    assert(d_entries(s, 88, 1, 1, 3, acc2) == Ok::<(Seq<(Seq<u8>, ValueView)>, int, int), Seq<char>>((acc3, 108, 4)));
    assert(d_entries(s, 68, 2, 1, 2, acc1) == Ok::<(Seq<(Seq<u8>, ValueView)>, int, int), Seq<char>>((acc3, 108, 4)));
    assert(d_entries(s, 48, 3, 1, 1, Seq::empty()) == Ok::<(Seq<(Seq<u8>, ValueView)>, int, int), Seq<char>>((acc3, 108, 4)));
    assert(d_descriptor(s, 32, 1, 1) == Ok::<(Seq<(Seq<u8>, ValueView)>, int, int), Seq<char>>((acc3, 108, 4)));
    assert(s.subrange(28, 32) == crate::import::psd::descriptor::tag_objc());
    assert(d_value(s, 28, 1, 0) == Ok::<(ValueView, int, int), Seq<char>>((ValueView::Object(acc3), 108, 4)));
    let top = Seq::<(Seq<u8>, ValueView)>::empty().push((clr, ValueView::Object(acc3)));
    assert(d_entries(s, 108, 0, 0, 4, top) == Ok::<(Seq<(Seq<u8>, ValueView)>, int, int), Seq<char>>((top, 108, 4)));
    assert(d_entries(s, 20, 1, 0, 0, Seq::empty()) == Ok::<(Seq<(Seq<u8>, ValueView)>, int, int), Seq<char>>((top, 108, 4)));
    assert(d_descriptor(s, 4, 0, 0) == Ok::<(Seq<(Seq<u8>, ValueView)>, int, int), Seq<char>>((top, 108, 4)));
    assert(d_block(s) == Ok::<Seq<(Seq<u8>, ValueView)>, Seq<char>>(top));
    lemma_solid_color_lookups(acc3, top, rgb);
}

/// Looking up the written keys finds the written values.
proof fn lemma_solid_color_lookups(acc3: Seq<(Seq<u8>, ValueView)>, top: Seq<(Seq<u8>, ValueView)>, rgb: [u8; 3])
    requires
        "Clr ".spec_bytes() == seq![0x43u8, 0x6Cu8, 0x72u8, 0x20u8],
        "Rd  ".spec_bytes() == seq![0x52u8, 0x64u8, 0x20u8, 0x20u8],
        "Grn ".spec_bytes() == seq![0x47u8, 0x72u8, 0x6Eu8, 0x20u8],
        "Bl  ".spec_bytes() == seq![0x42u8, 0x6Cu8, 0x20u8, 0x20u8],
        acc3 == Seq::<(Seq<u8>, ValueView)>::empty()
            .push(("Rd  ".spec_bytes(), ValueView::Double(f64_bits(rgb[0] as int) as u64)))
            .push(("Grn ".spec_bytes(), ValueView::Double(f64_bits(rgb[1] as int) as u64)))
            .push(("Bl  ".spec_bytes(), ValueView::Double(f64_bits(rgb[2] as int) as u64))),
        top == Seq::<(Seq<u8>, ValueView)>::empty().push(("Clr ".spec_bytes(), ValueView::Object(acc3))),
    ensures
        w_color(top) == Ok::<ColorModel, Seq<char>>(ColorModel::Rgb(
            StyleNumber::Double(f64_bits(rgb[0] as int) as u64),
            StyleNumber::Double(f64_bits(rgb[1] as int) as u64),
            StyleNumber::Double(f64_bits(rgb[2] as int) as u64),
        )),
{
    let clr = "Clr ".spec_bytes();
    let rd = "Rd  ".spec_bytes();
    let grn = "Grn ".spec_bytes();
    let bl = "Bl  ".spec_bytes();
    let k = keys_of(acc3);
    assert(k =~= seq![rd, grn, bl]);
    assert(bl[0] != rd[0] && grn[0] != rd[0] && bl[0] != grn[0]);
    assert(k.drop_last() =~= seq![rd, grn]);
    assert(k.drop_last().drop_last() =~= seq![rd]);
    assert(last_index(k.drop_last().drop_last(), rd) == Some(0int));
    assert(last_index(k.drop_last(), rd) == Some(0int));
    assert(last_index(k, rd) == Some(0int));
    assert(last_index(k.drop_last(), grn) == Some(1int));
    assert(last_index(k, grn) == Some(1int));
    assert(last_index(k, bl) == Some(2int));
    assert(keys_of(top) =~= seq![clr]);
    assert(last_index(keys_of(top), clr) == Some(0int));
}

} // verus!
