//! Photoshop action descriptors, as vector fill and stroke styles store
//! them: typed key/value trees. Numbers are kept as their stored bits; what
//! they measure is read by the caller.
use vstd::prelude::*;
use crate::drawing::brush::{avail, be32, signed32};
use crate::import::psd::{psd_section, psd_take_error, tag_is, Cursor};
use crate::import::psd::layers::read_i32;
use crate::text::{decode_utf8_lossy, utf8_lossy};
use vstd::string::StringSliceAdditionalSpecFns;

verus! {

/// A descriptor value as read.
#[derive(Debug)]
pub enum DescValue {
    /// A nested descriptor: its entries in file order.
    Object(Vec<DescEntry>),
    /// A `doub`: the bits of a binary64 number.
    Double(u64),
    /// A `long`.
    Long(i32),
    /// A `UntF`: the unit's four-character code and the bits of a binary64.
    Unit(Vec<u8>, u64),
    Bool(bool),
    /// An `enum`: the value's identifier.
    Enum(Vec<u8>),
    List(Vec<DescItem>),
    /// Text, raw data and aliases, which styles do not use.
    Other,
}

/// One key of a descriptor and its value.
#[derive(Debug)]
pub struct DescEntry {
    pub key: Vec<u8>,
    pub value: DescValue,
}

/// One value of a list.
#[derive(Debug)]
pub struct DescItem {
    pub value: DescValue,
}

/// The mathematical content of a [`DescValue`].
pub enum ValueView {
    Object(Seq<(Seq<u8>, ValueView)>),
    Double(u64),
    Long(i32),
    Unit(Seq<u8>, u64),
    Bool(bool),
    Enum(Seq<u8>),
    List(Seq<ValueView>),
    Other,
}

/// Whether `v` holds the content `w`.
pub open spec fn value_is(v: DescValue, w: ValueView) -> bool
    decreases v,
{
    match v {
        DescValue::Object(entries) => match w {
            ValueView::Object(ws) => entries@.len() == ws.len()
                && forall|i: int| 0 <= i < entries@.len() ==> (#[trigger] entries@[i]).key@ == ws[i].0
                    && value_is(entries@[i].value, ws[i].1),
            _ => false,
        },
        DescValue::Double(b) => w == ValueView::Double(b),
        DescValue::Long(x) => w == ValueView::Long(x),
        DescValue::Unit(u, b) => w == ValueView::Unit(u@, b),
        DescValue::Bool(x) => w == ValueView::Bool(x),
        DescValue::Enum(e) => w == ValueView::Enum(e@),
        DescValue::List(items) => match w {
            ValueView::List(ws) => items@.len() == ws.len()
                && forall|i: int| 0 <= i < items@.len() ==> value_is((#[trigger] items@[i]).value, ws[i]),
            _ => false,
        },
        DescValue::Other => w == ValueView::Other,
    }
}

/// Whether `entries` hold the keys and values `ws`.
pub open spec fn entries_are(entries: Seq<DescEntry>, ws: Seq<(Seq<u8>, ValueView)>) -> bool {
    entries.len() == ws.len()
        && forall|i: int| 0 <= i < entries.len() ==> (#[trigger] entries[i]).key@ == ws[i].0 && value_is(entries[i].value, ws[i].1)
}

/// Whether `items` hold the values `ws`.
pub open spec fn items_are(items: Seq<DescItem>, ws: Seq<ValueView>) -> bool {
    items.len() == ws.len() && forall|i: int| 0 <= i < items.len() ==> value_is((#[trigger] items[i]).value, ws[i])
}

pub open spec fn too_complex() -> Seq<char> {
    "PSD descriptor is too complex."@
}

pub open spec fn text_too_large() -> Seq<char> {
    "PSD descriptor text is too large."@
}

pub open spec fn too_deep() -> Seq<char> {
    "PSD descriptor nesting is too deep."@
}

pub open spec fn too_large() -> Seq<char> {
    "PSD descriptor is too large."@
}

pub open spec fn list_too_large() -> Seq<char> {
    "PSD descriptor list is too large."@
}

pub open spec fn unsupported_version() -> Seq<char> {
    "Unsupported Photoshop descriptor version."@
}

/// The error for a value of unknown type `tag`.
pub open spec fn unsupported_type(tag: Seq<u8>) -> Seq<char> {
    "Unsupported Photoshop shape descriptor '"@ + utf8_lossy(tag) + "'."@
}

pub open spec fn tag_objc() -> Seq<u8> { seq![0x4Fu8, 0x62u8, 0x6Au8, 0x63u8] }
pub open spec fn tag_glbo() -> Seq<u8> { seq![0x47u8, 0x6Cu8, 0x62u8, 0x4Fu8] }
pub open spec fn tag_doub() -> Seq<u8> { seq![0x64u8, 0x6Fu8, 0x75u8, 0x62u8] }
pub open spec fn tag_untf() -> Seq<u8> { seq![0x55u8, 0x6Eu8, 0x74u8, 0x46u8] }
pub open spec fn tag_long() -> Seq<u8> { seq![0x6Cu8, 0x6Fu8, 0x6Eu8, 0x67u8] }
pub open spec fn tag_bool() -> Seq<u8> { seq![0x62u8, 0x6Fu8, 0x6Fu8, 0x6Cu8] }
pub open spec fn tag_enum() -> Seq<u8> { seq![0x65u8, 0x6Eu8, 0x75u8, 0x6Du8] }
pub open spec fn tag_vlls() -> Seq<u8> { seq![0x56u8, 0x6Cu8, 0x4Cu8, 0x73u8] }
pub open spec fn tag_text() -> Seq<u8> { seq![0x54u8, 0x45u8, 0x58u8, 0x54u8] }
pub open spec fn tag_tdta() -> Seq<u8> { seq![0x74u8, 0x64u8, 0x74u8, 0x61u8] }
pub open spec fn tag_alis() -> Seq<u8> { seq![0x61u8, 0x6Cu8, 0x69u8, 0x73u8] }

/// The big-endian 64-bit value at `p`.
pub open spec fn bits64(s: Seq<u8>, p: int) -> int {
    be32(s, p) * 0x1_0000_0000 + be32(s, p + 4)
}

/// An identifier at `pos`: a length, or 0 for a four-character key, then
/// its bytes; and the position after it.
pub open spec fn d_identifier(s: Seq<u8>, pos: int) -> Result<(Seq<u8>, int), Seq<char>> {
    if !avail(s, pos, 4) {
        Err(psd_take_error(pos, 4))
    } else {
        let n = if be32(s, pos) == 0 { 4 } else { be32(s, pos) };
        if !avail(s, pos + 4, n) {
            Err(psd_take_error(pos + 4, n))
        } else {
            Ok((s.subrange(pos + 4, pos + 4 + n), pos + 4 + n))
        }
    }
}

/// A UTF-16 text at `pos`, skipped: the position after it.
pub open spec fn d_unicode(s: Seq<u8>, pos: int) -> Result<int, Seq<char>> {
    if !avail(s, pos, 4) {
        Err(psd_take_error(pos, 4))
    } else if be32(s, pos) > 1_000_000 {
        Err(text_too_large())
    } else if !avail(s, pos + 4, 2 * be32(s, pos)) {
        Err(psd_take_error(pos + 4, 2 * be32(s, pos)))
    } else {
        Ok(pos + 4 + 2 * be32(s, pos))
    }
}

/// A value of a type that holds no other values, its tag read: the value
/// and the position after it.
pub open spec fn d_scalar(s: Seq<u8>, p: int, tag: Seq<u8>) -> Result<(ValueView, int), Seq<char>> {
    if tag == tag_doub() {
        if !avail(s, p, 8) { Err(psd_take_error(p, 8)) } else { Ok((ValueView::Double(bits64(s, p) as u64), p + 8)) }
    } else if tag == tag_untf() {
        if !avail(s, p, 4) {
            Err(psd_take_error(p, 4))
        } else if !avail(s, p + 4, 8) {
            Err(psd_take_error(p + 4, 8))
        } else {
            Ok((ValueView::Unit(s.subrange(p, p + 4), bits64(s, p + 4) as u64), p + 12))
        }
    } else if tag == tag_long() {
        if !avail(s, p, 4) { Err(psd_take_error(p, 4)) } else { Ok((ValueView::Long(signed32(be32(s, p)) as i32), p + 4)) }
    } else if tag == tag_bool() {
        if !avail(s, p, 1) { Err(psd_take_error(p, 1)) } else { Ok((ValueView::Bool(s[p] != 0), p + 1)) }
    } else if tag == tag_enum() {
        match d_identifier(s, p) {
            Err(e) => Err(e),
            Ok((_, p2)) => match d_identifier(s, p2) {
                Err(e) => Err(e),
                Ok((id, p3)) => Ok((ValueView::Enum(id), p3)),
            },
        }
    } else if tag == tag_text() {
        match d_unicode(s, p) {
            Ok(p2) => Ok((ValueView::Other, p2)),
            Err(e) => Err(e),
        }
    } else if tag == tag_tdta() || tag == tag_alis() {
        match psd_section(s, p) {
            Ok((_, p2)) => Ok((ValueView::Other, p2)),
            Err(e) => Err(e),
        }
    } else {
        Err(unsupported_type(tag))
    }
}

/// The value at `pos` of nesting `depth`, after `budget` values: the value,
/// the position after it and the values counted so far. At most 20 000
/// values and 24 levels are read.
pub open spec fn d_value(s: Seq<u8>, pos: int, depth: int, budget: int) -> Result<(ValueView, int, int), Seq<char>>
    decreases 20001 - budget, 0int, 0int,
{
    let b = budget + 1;
    if b > 20000 || depth > 24 {
        Err(too_complex())
    } else if !avail(s, pos, 4) {
        Err(psd_take_error(pos, 4))
    } else {
        let tag = s.subrange(pos, pos + 4);
        let p = pos + 4;
        if tag == tag_objc() || tag == tag_glbo() {
            match d_descriptor(s, p, depth, b) {
                Ok((d, p2, b2)) => Ok((ValueView::Object(d), p2, b2)),
                Err(e) => Err(e),
            }
        } else if tag == tag_vlls() {
            if !avail(s, p, 4) {
                Err(psd_take_error(p, 4))
            } else if be32(s, p) > 10000 {
                Err(list_too_large())
            } else {
                match d_list(s, p + 4, be32(s, p), depth + 1, b, seq![]) {
                    Ok((items, p2, b2)) => Ok((ValueView::List(items), p2, b2)),
                    Err(e) => Err(e),
                }
            }
        } else {
            match d_scalar(s, p, tag) {
                Ok((v, p2)) => Ok((v, p2, b)),
                Err(e) => Err(e),
            }
        }
    }
}

/// The descriptor at `pos`: a name, a class identifier and up to 10 000
/// keyed values.
pub open spec fn d_descriptor(s: Seq<u8>, pos: int, depth: int, budget: int) -> Result<(Seq<(Seq<u8>, ValueView)>, int, int), Seq<char>>
    decreases 20001 - budget, 2int, 0int,
{
    if depth > 24 {
        Err(too_deep())
    } else {
        match d_unicode(s, pos) {
            Err(e) => Err(e),
            Ok(p1) => match d_identifier(s, p1) {
                Err(e) => Err(e),
                Ok((_, p2)) => {
                    if !avail(s, p2, 4) {
                        Err(psd_take_error(p2, 4))
                    } else if be32(s, p2) > 10000 {
                        Err(too_large())
                    } else {
                        d_entries(s, p2 + 4, be32(s, p2), depth, budget, seq![])
                    }
                },
            },
        }
    }
}

/// `count` more keyed values of a descriptor, after `acc`.
pub open spec fn d_entries(s: Seq<u8>, pos: int, count: int, depth: int, budget: int, acc: Seq<(Seq<u8>, ValueView)>) -> Result<(Seq<(Seq<u8>, ValueView)>, int, int), Seq<char>>
    decreases 20001 - budget, 1int, count,
{
    if count <= 0 {
        Ok((acc, pos, budget))
    } else {
        match d_identifier(s, pos) {
            Err(e) => Err(e),
            Ok((key, p1)) => match d_value(s, p1, depth + 1, budget) {
                Err(e) => Err(e),
                Ok((v, p2, b2)) => {
                    if b2 <= budget || b2 > 20000 {
                        Err(too_complex())
                    } else {
                        d_entries(s, p2, count - 1, depth, b2, acc.push((key, v)))
                    }
                },
            },
        }
    }
}

/// `count` more values of a list, after `acc`.
pub open spec fn d_list(s: Seq<u8>, pos: int, count: int, depth: int, budget: int, acc: Seq<ValueView>) -> Result<(Seq<ValueView>, int, int), Seq<char>>
    decreases 20001 - budget, 1int, count,
{
    if count <= 0 {
        Ok((acc, pos, budget))
    } else {
        match d_value(s, pos, depth, budget) {
            Err(e) => Err(e),
            Ok((v, p2, b2)) => {
                if b2 <= budget || b2 > 20000 {
                    Err(too_complex())
                } else {
                    d_list(s, p2, count - 1, depth, b2, acc.push(v))
                }
            },
        }
    }
}

/// A descriptor block: version 16, then a descriptor.
pub open spec fn d_block(s: Seq<u8>) -> Result<Seq<(Seq<u8>, ValueView)>, Seq<char>> {
    if !avail(s, 0, 4) {
        Err(psd_take_error(0, 4))
    } else if be32(s, 0) != 16 {
        Err(unsupported_version())
    } else {
        match d_descriptor(s, 4, 0, 0) {
            Ok((d, _, _)) => Ok(d),
            Err(e) => Err(e),
        }
    }
}

/// Read an identifier.
fn identifier(r: &mut Cursor<'_>) -> (res: Result<Vec<u8>, String>)
    requires
        old(r).wf(),
    ensures
        final(r).wf(),
        final(r).data@ == old(r).data@,
        match d_identifier(old(r).data@, old(r).pos as int) {
            Ok((id, p)) => (res matches Ok(v) && v@ == id) && final(r).pos == p,
            Err(e) => res matches Err(x) && x@ == e,
        },
{
    let length = r.u32()? as usize;
    let n = if length == 0 { 4 } else { length };
    let b = r.take(n)?;
    Ok(vstd::slice::slice_to_vec(b))
}

/// Skip a UTF-16 text.
fn unicode(r: &mut Cursor<'_>) -> (res: Result<(), String>)
    requires
        old(r).wf(),
    ensures
        final(r).wf(),
        final(r).data@ == old(r).data@,
        match d_unicode(old(r).data@, old(r).pos as int) {
            Ok(p) => res is Ok && final(r).pos == p,
            Err(e) => res matches Err(x) && x@ == e,
        },
{
    let n = r.u32()? as usize;
    if n > 1_000_000 {
        return Err(String::from_str("PSD descriptor text is too large."));
    }
    r.take(n * 2)?;
    Ok(())
}

/// The big-endian 64-bit value of eight bytes.
fn bits_of(b: &[u8]) -> (v: u64)
    requires
        b@.len() == 8,
    ensures
        v == bits64(b@, 0),
{
    let hi = ((b[0] as u64 * 256 + b[1] as u64) * 256 + b[2] as u64) * 256 + b[3] as u64;
    let lo = ((b[4] as u64 * 256 + b[5] as u64) * 256 + b[6] as u64) * 256 + b[7] as u64;
    hi * 0x1_0000_0000 + lo
}

/// Read eight bytes as a 64-bit value.
fn read_bits(r: &mut Cursor<'_>) -> (res: Result<u64, String>)
    requires
        old(r).wf(),
    ensures
        final(r).wf(),
        final(r).data@ == old(r).data@,
        avail(old(r).data@, old(r).pos as int, 8) ==> res == Ok::<u64, String>(bits64(old(r).data@, old(r).pos as int) as u64)
            && final(r).pos == old(r).pos + 8,
        !avail(old(r).data@, old(r).pos as int, 8) ==> (res matches Err(x) && x@ == psd_take_error(old(r).pos as int, 8)),
{
    let ghost s = r.data@;
    let ghost p = r.pos as int;
    let b = r.take(8)?;
    let v = bits_of(b);
    assert(bits64(b@, 0) == bits64(s, p));
    Ok(v)
}

/// Read the `count` values of a list of nesting `depth`, after `budget`
/// values: the values and the values counted so far.
fn list_items(r: &mut Cursor<'_>, count: usize, depth: usize, budget: usize) -> (res: Result<(Vec<DescItem>, usize), String>)
    requires
        old(r).wf(),
        1 <= budget <= 20000,
        count <= 10000,
        depth <= 25,
    ensures
        final(r).wf(),
        final(r).data@ == old(r).data@,
        match d_list(old(r).data@, old(r).pos as int, count as int, depth as int, budget as int, seq![]) {
            Ok((ws, p, b)) => (res matches Ok((items, nb)) && items_are(items@, ws) && nb == b) && final(r).pos == p,
            Err(e) => res matches Err(x) && x@ == e,
        },
        res matches Ok((_, nb)) ==> budget <= nb <= 20000,
    decreases 20001 - budget, 1int, 0int,
{
    let ghost s = r.data@;
    let ghost start = r.pos as int;
    let mut items: Vec<DescItem> = Vec::new();
    let ghost mut ws: Seq<ValueView> = seq![];
    let mut nb = budget;
    let mut k: usize = 0;
    while k < count
        invariant
            r.wf(),
            r.data@ == s,
            s == old(r).data@,
            start == old(r).pos,
            k <= count,
            count <= 10000,
            depth <= 25,
            budget <= nb <= 20000,
            items_are(items@, ws),
            d_list(s, start, count as int, depth as int, budget as int, seq![])
                == d_list(s, r.pos as int, count - k, depth as int, nb as int, ws),
        decreases count - k,
    {
        let ghost at = r.pos as int;
        let ghost w = d_value(s, at, depth as int, nb as int)->Ok_0.0;
        let (v, nb2) = value(r, depth, nb)?;
        items.push(DescItem { value: v });
        proof {
            ws = ws.push(w);
        }
        nb = nb2;
        k += 1;
    }
    Ok((items, nb))
}

/// Read a value of a type that holds no other values, its tag `tag` read.
#[verifier::spinoff_prover]
#[verifier::rlimit(30)]
fn scalar_value(r: &mut Cursor<'_>, tag: &[u8]) -> (res: Result<DescValue, String>)
    requires
        old(r).wf(),
        tag@.len() == 4,
    ensures
        final(r).wf(),
        final(r).data@ == old(r).data@,
        match d_scalar(old(r).data@, old(r).pos as int, tag@) {
            Ok((w, p)) => (res matches Ok(v) && value_is(v, w)) && final(r).pos == p,
            Err(e) => res matches Err(x) && x@ == e,
        },
{
    if tag_is(tag, 0x64, 0x6F, 0x75, 0x62) {
        let bits = read_bits(r)?;
        return Ok(DescValue::Double(bits));
    }
    if tag_is(tag, 0x55, 0x6E, 0x74, 0x46) {
        let unit = vstd::slice::slice_to_vec(r.take(4)?);
        let bits = read_bits(r)?;
        return Ok(DescValue::Unit(unit, bits));
    }
    if tag_is(tag, 0x6C, 0x6F, 0x6E, 0x67) {
        let v = read_i32(r)?;
        return Ok(DescValue::Long(v));
    }
    if tag_is(tag, 0x62, 0x6F, 0x6F, 0x6C) {
        let v = r.take(1)?;
        return Ok(DescValue::Bool(v[0] != 0));
    }
    if tag_is(tag, 0x65, 0x6E, 0x75, 0x6D) {
        identifier(r)?;
        let id = identifier(r)?;
        return Ok(DescValue::Enum(id));
    }
    if tag_is(tag, 0x54, 0x45, 0x58, 0x54) {
        unicode(r)?;
        return Ok(DescValue::Other);
    }
    if tag_is(tag, 0x74, 0x64, 0x74, 0x61) || tag_is(tag, 0x61, 0x6C, 0x69, 0x73) {
        r.section()?;
        return Ok(DescValue::Other);
    }
    let mut message = String::from_str("Unsupported Photoshop shape descriptor '");
    let name = decode_utf8_lossy(tag);
    message.append(name.as_str());
    message.append("'.");
    Err(message)
}

/// Read a value of nesting `depth`, after `budget` values: the value and
/// the values counted so far.
#[verifier::spinoff_prover]
#[verifier::rlimit(50)]
pub fn value(r: &mut Cursor<'_>, depth: usize, budget: usize) -> (res: Result<(DescValue, usize), String>)
    requires
        old(r).wf(),
        budget <= 20000,
    ensures
        final(r).wf(),
        final(r).data@ == old(r).data@,
        match d_value(old(r).data@, old(r).pos as int, depth as int, budget as int) {
            Ok((w, p, b)) => (res matches Ok((v, nb)) && value_is(v, w) && nb == b) && final(r).pos == p,
            Err(e) => res matches Err(x) && x@ == e,
        },
        res matches Ok((_, nb)) ==> budget < nb <= 20000,
    decreases 20001 - budget, 0int, 0int,
{
    let b = budget + 1;
    if b > 20000 || depth > 24 {
        return Err(String::from_str("PSD descriptor is too complex."));
    }
    let tag = r.take(4)?;
    if tag_is(tag, 0x4F, 0x62, 0x6A, 0x63) || tag_is(tag, 0x47, 0x6C, 0x62, 0x4F) {
        let (d, b2) = descriptor(r, depth, b)?;
        return Ok((DescValue::Object(d), b2));
    }
    if tag_is(tag, 0x56, 0x6C, 0x4C, 0x73) {
        let count = r.u32()? as usize;
        if count > 10000 {
            return Err(String::from_str("PSD descriptor list is too large."));
        }
        let ghost s = r.data@;
        let ghost at = r.pos as int;
        let (items, nb) = list_items(r, count, depth + 1, b)?;
        proof {
            let ws = d_list(s, at, count as int, depth + 1, b as int, seq![])->Ok_0.0;
            assert(items_are(items@, ws));
        }
        return Ok((DescValue::List(items), nb));
    }
    let v = scalar_value(r, tag)?;
    Ok((v, b))
}

/// Read a descriptor of nesting `depth`, after `budget` values: its entries
/// and the values counted so far.
pub fn descriptor(r: &mut Cursor<'_>, depth: usize, budget: usize) -> (res: Result<(Vec<DescEntry>, usize), String>)
    requires
        old(r).wf(),
        budget <= 20000,
    ensures
        final(r).wf(),
        final(r).data@ == old(r).data@,
        match d_descriptor(old(r).data@, old(r).pos as int, depth as int, budget as int) {
            Ok((ws, p, b)) => (res matches Ok((es, nb)) && entries_are(es@, ws) && nb == b) && final(r).pos == p,
            Err(e) => res matches Err(x) && x@ == e,
        },
        res matches Ok((_, nb)) ==> budget <= nb <= 20000,
    decreases 20001 - budget, 2int, 0int,
{
    if depth > 24 {
        return Err(String::from_str("PSD descriptor nesting is too deep."));
    }
    unicode(r)?;
    identifier(r)?;
    let count = r.u32()? as usize;
    if count > 10000 {
        return Err(String::from_str("PSD descriptor is too large."));
    }
    let ghost s = r.data@;
    let ghost start = r.pos as int;
    let ghost whole = d_descriptor(s, old(r).pos as int, depth as int, budget as int);
    assert(whole == d_entries(s, start, count as int, depth as int, budget as int, seq![]));
    let mut entries: Vec<DescEntry> = Vec::new();
    let ghost mut ws: Seq<(Seq<u8>, ValueView)> = seq![];
    let mut nb = budget;
    let mut k: usize = 0;
    while k < count
        invariant
            r.wf(),
            r.data@ == s,
            s == old(r).data@,
            whole == d_descriptor(old(r).data@, old(r).pos as int, depth as int, budget as int),
            whole == d_entries(s, start, count as int, depth as int, budget as int, seq![]),
            k <= count,
            count <= 10000,
            depth <= 24,
            budget <= nb <= 20000,
            entries_are(entries@, ws),
            d_entries(s, start, count as int, depth as int, budget as int, seq![])
                == d_entries(s, r.pos as int, count - k, depth as int, nb as int, ws),
        decreases count - k,
    {
        let key = identifier(r)?;
        let ghost at = r.pos as int;
        let ghost w = d_value(s, at, depth + 1, nb as int)->Ok_0.0;
        let (v, nb2) = value(r, depth + 1, nb)?;
        proof {
            ws = ws.push((key@, w));
        }
        entries.push(DescEntry { key, value: v });
        nb = nb2;
        k += 1;
    }
    Ok((entries, nb))
}

/// Read a descriptor block: version 16, then a descriptor.
pub fn descriptor_block(data: &[u8]) -> (res: Result<Vec<DescEntry>, String>)
    ensures
        match d_block(data@) {
            Ok(ws) => res matches Ok(es) && entries_are(es@, ws),
            Err(e) => res matches Err(x) && x@ == e,
        },
{
    let mut r = Cursor::new(data);
    if r.u32()? != 16 {
        return Err(String::from_str("Unsupported Photoshop descriptor version."));
    }
    let (d, _) = descriptor(&mut r, 0, 0)?;
    Ok(d)
}

// ---------------------------------------------------------------------------
// Looking values up, and what vector fill and stroke styles say.

/// The position of the last of `keys` equal to `key`: a later key replaces
/// an earlier one.
pub open spec fn last_index(keys: Seq<Seq<u8>>, key: Seq<u8>) -> Option<int>
    decreases keys.len(),
{
    if keys.len() == 0 {
        None
    } else if keys.last() == key {
        Some(keys.len() - 1)
    } else {
        last_index(keys.drop_last(), key)
    }
}

/// The keys of descriptor entries.
pub open spec fn keys_of(ws: Seq<(Seq<u8>, ValueView)>) -> Seq<Seq<u8>> {
    ws.map_values(|p: (Seq<u8>, ValueView)| p.0)
}

/// The value of `key` in a descriptor.
pub open spec fn lookup(ws: Seq<(Seq<u8>, ValueView)>, key: Seq<u8>) -> Option<ValueView> {
    match last_index(keys_of(ws), key) {
        Some(i) => Some(ws[i].1),
        None => None,
    }
}

proof fn lemma_last_index_range(keys: Seq<Seq<u8>>, key: Seq<u8>)
    ensures
        last_index(keys, key) matches Some(i) ==> 0 <= i < keys.len() && keys[i] == key,
    decreases keys.len(),
{
    if keys.len() > 0 {
        lemma_last_index_range(keys.drop_last(), key);
    }
}

/// Whether `a` and `b` hold the same bytes.
fn bytes_eq(a: &[u8], b: &[u8]) -> (r: bool)
    ensures
        r == (a@ == b@),
{
    if a.len() != b.len() {
        return false;
    }
    let mut i: usize = 0;
    while i < a.len()
        invariant
            i <= a@.len(),
            a@.len() == b@.len(),
            forall|q: int| 0 <= q < i ==> a@[q] == b@[q],
        decreases a@.len() - i,
    {
        if a[i] != b[i] {
            return false;
        }
        i += 1;
    }
    assert(a@ =~= b@);
    true
}

/// The entry holding the value of `key`.
fn find(entries: &Vec<DescEntry>, key: &[u8], Ghost(ws): Ghost<Seq<(Seq<u8>, ValueView)>>) -> (r: Option<usize>)
    requires
        entries_are(entries@, ws),
    ensures
        r matches Some(i) ==> i < entries@.len() && lookup(ws, key@) == Some(ws[i as int].1)
            && value_is(entries@[i as int].value, ws[i as int].1),
        r is None ==> lookup(ws, key@) is None,
{
    let ghost keys = keys_of(ws);
    let mut i = entries.len();
    assert(keys.take(i as int) =~= keys);
    while i > 0
        invariant
            i <= entries@.len(),
            entries_are(entries@, ws),
            keys == keys_of(ws),
            last_index(keys, key@) == last_index(keys.take(i as int), key@),
        decreases i,
    {
        assert(keys.take(i as int).drop_last() =~= keys.take(i - 1));
        assert(keys[i - 1] == entries@[i - 1].key@);
        if bytes_eq(entries[i - 1].key.as_slice(), key) {
            return Some(i - 1);
        }
        i -= 1;
    }
    None
}

/// A unit a style measures lengths in.
#[derive(Debug, Clone, Copy, PartialEq, Eq, Structural)]
pub enum MeasureUnit {
    Pixels,
    Points,
    Inches,
    Millimeters,
    Centimeters,
}

/// A number as a style stores it, for the caller to read.
#[derive(Debug, Clone, Copy, PartialEq, Eq, Structural)]
pub enum StyleNumber {
    /// Not given: the caller's default applies.
    Default,
    /// The bits of a binary64 number.
    Double(u64),
    Long(i32),
    /// A length: its unit and the bits of its binary64 value.
    Measure(MeasureUnit, u64),
}

/// A solid color as a style stores it, channels in the color model's own
/// scale.
#[derive(Debug, Clone, Copy, PartialEq, Eq, Structural)]
pub enum ColorModel {
    Rgb(StyleNumber, StyleNumber, StyleNumber),
    Gray(StyleNumber),
    /// Cyan, magenta, yellow and black.
    Cmyk(StyleNumber, StyleNumber, StyleNumber, StyleNumber),
}

/// A centered, solid, normally blended stroke.
#[derive(Debug, Clone, Copy, PartialEq, Eq, Structural)]
pub struct StrokeStyle {
    pub color: ColorModel,
    /// Percent; 100 when not given.
    pub opacity: StyleNumber,
    /// One pixel when not given.
    pub width: StyleNumber,
    /// 0 butt, 1 round, 2 square.
    pub cap: u8,
    /// 0 miter, 1 round, 2 bevel.
    pub join: u8,
    /// 4 when not given.
    pub miter: StyleNumber,
}

/// The paint of a vector shape: its fill color and its stroke.
#[derive(Debug, Clone, Copy, PartialEq, Eq, Structural)]
pub struct ShapePaint {
    pub fill: Option<ColorModel>,
    pub stroke: Option<StrokeStyle>,
}

/// The number stored under `key`; a measurement gives its bare value.
pub open spec fn w_number(ws: Seq<(Seq<u8>, ValueView)>, key: Seq<u8>) -> StyleNumber {
    match lookup(ws, key) {
        Some(ValueView::Double(b)) => StyleNumber::Double(b),
        Some(ValueView::Long(x)) => StyleNumber::Long(x),
        Some(ValueView::Unit(_, b)) => StyleNumber::Double(b),
        _ => StyleNumber::Default,
    }
}

/// The flag stored under `key`, or `default`.
pub open spec fn w_bool(ws: Seq<(Seq<u8>, ValueView)>, key: Seq<u8>, default: bool) -> bool {
    match lookup(ws, key) {
        Some(ValueView::Bool(x)) => x,
        _ => default,
    }
}

/// The enumerated value stored under `key`.
pub open spec fn w_enum(ws: Seq<(Seq<u8>, ValueView)>, key: Seq<u8>) -> Option<Seq<u8>> {
    match lookup(ws, key) {
        Some(ValueView::Enum(e)) => Some(e),
        _ => None,
    }
}

/// The descriptor stored under `key`.
pub open spec fn w_object(ws: Seq<(Seq<u8>, ValueView)>, key: Seq<u8>) -> Option<Seq<(Seq<u8>, ValueView)>> {
    match lookup(ws, key) {
        Some(ValueView::Object(o)) => Some(o),
        _ => None,
    }
}

/// Whether a non-empty list is stored under `key`.
pub open spec fn w_nonempty_list(ws: Seq<(Seq<u8>, ValueView)>, key: Seq<u8>) -> bool {
    match lookup(ws, key) {
        Some(ValueView::List(items)) => items.len() > 0,
        _ => false,
    }
}

/// The unit of a four-character unit code.
pub open spec fn unit_of(code: Seq<u8>) -> Option<MeasureUnit> {
    if code == "#Pxl".spec_bytes() {
        Some(MeasureUnit::Pixels)
    } else if code == "#Pnt".spec_bytes() {
        Some(MeasureUnit::Points)
    } else if code == "#In ".spec_bytes() {
        Some(MeasureUnit::Inches)
    } else if code == "#Mlm".spec_bytes() {
        Some(MeasureUnit::Millimeters)
    } else if code == "#Cmt".spec_bytes() {
        Some(MeasureUnit::Centimeters)
    } else {
        None
    }
}

pub open spec fn unsupported_unit() -> Seq<char> {
    "Unsupported Photoshop vector measurement unit."@
}

/// The length stored under `key`, or why its unit is refused.
pub open spec fn w_measure(ws: Seq<(Seq<u8>, ValueView)>, key: Seq<u8>) -> Result<StyleNumber, Seq<char>> {
    match lookup(ws, key) {
        Some(ValueView::Unit(code, b)) => match unit_of(code) {
            Some(u) => Ok(StyleNumber::Measure(u, b)),
            None => Err(unsupported_unit()),
        },
        _ => Ok(w_number(ws, key)),
    }
}

pub open spec fn only_solid() -> Seq<char> {
    "Only solid-color Photoshop vector fills are currently supported"@
}

pub open spec fn unsupported_model() -> Seq<char> {
    "Unsupported Photoshop vector color model."@
}

/// The solid color of a fill or stroke content descriptor.
pub open spec fn w_color(ws: Seq<(Seq<u8>, ValueView)>) -> Result<ColorModel, Seq<char>> {
    match w_object(ws, "Clr ".spec_bytes()) {
        None => Err(only_solid()),
        Some(c) => if lookup(c, "Rd  ".spec_bytes()) is Some {
            Ok(ColorModel::Rgb(w_number(c, "Rd  ".spec_bytes()), w_number(c, "Grn ".spec_bytes()), w_number(c, "Bl  ".spec_bytes())))
        } else if lookup(c, "Gry ".spec_bytes()) is Some {
            Ok(ColorModel::Gray(w_number(c, "Gry ".spec_bytes())))
        } else if lookup(c, "Cyn ".spec_bytes()) is Some {
            Ok(ColorModel::Cmyk(w_number(c, "Cyn ".spec_bytes()), w_number(c, "Mgnt".spec_bytes()),
                w_number(c, "Ylw ".spec_bytes()), w_number(c, "Blck".spec_bytes())))
        } else {
            Err(unsupported_model())
        },
    }
}

/// The number stored under `key`.
fn number(entries: &Vec<DescEntry>, key: &str, Ghost(ws): Ghost<Seq<(Seq<u8>, ValueView)>>) -> (n: StyleNumber)
    requires
        entries_are(entries@, ws),
    ensures
        n == w_number(ws, key.spec_bytes()),
{
    match find(entries, key.as_bytes(), Ghost(ws)) {
        None => StyleNumber::Default,
        Some(i) => match &entries[i].value {
            DescValue::Double(b) => StyleNumber::Double(*b),
            DescValue::Long(x) => StyleNumber::Long(*x),
            DescValue::Unit(_, b) => StyleNumber::Double(*b),
            _ => StyleNumber::Default,
        },
    }
}

/// The flag stored under `key`, or `default`.
fn boolean(entries: &Vec<DescEntry>, key: &str, default: bool, Ghost(ws): Ghost<Seq<(Seq<u8>, ValueView)>>) -> (b: bool)
    requires
        entries_are(entries@, ws),
    ensures
        b == w_bool(ws, key.spec_bytes(), default),
{
    match find(entries, key.as_bytes(), Ghost(ws)) {
        None => default,
        Some(i) => match &entries[i].value {
            DescValue::Bool(x) => *x,
            _ => default,
        },
    }
}

/// The enumerated value stored under `key`.
fn enumeration<'a>(entries: &'a Vec<DescEntry>, key: &str, Ghost(ws): Ghost<Seq<(Seq<u8>, ValueView)>>) -> (r: Option<&'a Vec<u8>>)
    requires
        entries_are(entries@, ws),
    ensures
        r matches Some(e) ==> w_enum(ws, key.spec_bytes()) == Some(e@),
        r is None ==> w_enum(ws, key.spec_bytes()) is None,
{
    match find(entries, key.as_bytes(), Ghost(ws)) {
        None => None,
        Some(i) => match &entries[i].value {
            DescValue::Enum(e) => Some(e),
            _ => None,
        },
    }
}

/// Whether the enumerated value `e` is `name`.
fn enum_is(e: &Vec<u8>, name: &str) -> (b: bool)
    ensures
        b == (e@ == name.spec_bytes()),
{
    bytes_eq(e.as_slice(), name.as_bytes())
}

/// The descriptor stored under `key`.
fn object<'a>(entries: &'a Vec<DescEntry>, key: &str, Ghost(ws): Ghost<Seq<(Seq<u8>, ValueView)>>) -> (r: Option<&'a Vec<DescEntry>>)
    requires
        entries_are(entries@, ws),
    ensures
        r matches Some(o) ==> (w_object(ws, key.spec_bytes()) matches Some(ow) && entries_are(o@, ow)),
        r is None ==> w_object(ws, key.spec_bytes()) is None,
{
    match find(entries, key.as_bytes(), Ghost(ws)) {
        None => None,
        Some(i) => match &entries[i].value {
            DescValue::Object(o) => Some(o),
            _ => None,
        },
    }
}

/// Whether a non-empty list is stored under `key`.
fn nonempty_list(entries: &Vec<DescEntry>, key: &str, Ghost(ws): Ghost<Seq<(Seq<u8>, ValueView)>>) -> (b: bool)
    requires
        entries_are(entries@, ws),
    ensures
        b == w_nonempty_list(ws, key.spec_bytes()),
{
    match find(entries, key.as_bytes(), Ghost(ws)) {
        None => false,
        Some(i) => match &entries[i].value {
            DescValue::List(items) => items.len() > 0,
            _ => false,
        },
    }
}

/// The length stored under `key`.
fn measure(entries: &Vec<DescEntry>, key: &str, Ghost(ws): Ghost<Seq<(Seq<u8>, ValueView)>>) -> (res: Result<StyleNumber, String>)
    requires
        entries_are(entries@, ws),
    ensures
        match w_measure(ws, key.spec_bytes()) {
            Ok(n) => res == Ok::<StyleNumber, String>(n),
            Err(e) => res matches Err(x) && x@ == e,
        },
{
    match find(entries, key.as_bytes(), Ghost(ws)) {
        None => Ok(StyleNumber::Default),
        Some(i) => match &entries[i].value {
            DescValue::Unit(code, b) => {
                let c = code.as_slice();
                if bytes_eq(c, "#Pxl".as_bytes()) {
                    Ok(StyleNumber::Measure(MeasureUnit::Pixels, *b))
                } else if bytes_eq(c, "#Pnt".as_bytes()) {
                    Ok(StyleNumber::Measure(MeasureUnit::Points, *b))
                } else if bytes_eq(c, "#In ".as_bytes()) {
                    Ok(StyleNumber::Measure(MeasureUnit::Inches, *b))
                } else if bytes_eq(c, "#Mlm".as_bytes()) {
                    Ok(StyleNumber::Measure(MeasureUnit::Millimeters, *b))
                } else if bytes_eq(c, "#Cmt".as_bytes()) {
                    Ok(StyleNumber::Measure(MeasureUnit::Centimeters, *b))
                } else {
                    Err(String::from_str("Unsupported Photoshop vector measurement unit."))
                }
            },
            _ => Ok(number(entries, key, Ghost(ws))),
        },
    }
}

/// Whether some entry holds `key`.
fn has_key(entries: &Vec<DescEntry>, key: &str, Ghost(ws): Ghost<Seq<(Seq<u8>, ValueView)>>) -> (b: bool)
    requires
        entries_are(entries@, ws),
    ensures
        b == (lookup(ws, key.spec_bytes()) is Some),
{
    find(entries, key.as_bytes(), Ghost(ws)).is_some()
}

/// The solid color of a fill or stroke content descriptor.
pub fn color(entries: &Vec<DescEntry>, Ghost(ws): Ghost<Seq<(Seq<u8>, ValueView)>>) -> (res: Result<ColorModel, String>)
    requires
        entries_are(entries@, ws),
    ensures
        match w_color(ws) {
            Ok(c) => res == Ok::<ColorModel, String>(c),
            Err(e) => res matches Err(x) && x@ == e,
        },
{
    let c = match object(entries, "Clr ", Ghost(ws)) {
        Some(c) => c,
        None => return Err(String::from_str("Only solid-color Photoshop vector fills are currently supported")),
    };
    let ghost cw = w_object(ws, "Clr ".spec_bytes())->Some_0;
    if has_key(c, "Rd  ", Ghost(cw)) {
        Ok(ColorModel::Rgb(number(c, "Rd  ", Ghost(cw)), number(c, "Grn ", Ghost(cw)), number(c, "Bl  ", Ghost(cw))))
    } else if has_key(c, "Gry ", Ghost(cw)) {
        Ok(ColorModel::Gray(number(c, "Gry ", Ghost(cw))))
    } else if has_key(c, "Cyn ", Ghost(cw)) {
        Ok(ColorModel::Cmyk(number(c, "Cyn ", Ghost(cw)), number(c, "Mgnt", Ghost(cw)),
            number(c, "Ylw ", Ghost(cw)), number(c, "Blck", Ghost(cw))))
    } else {
        Err(String::from_str("Unsupported Photoshop vector color model."))
    }
}

pub open spec fn no_paint() -> Seq<char> {
    "This Photoshop vector has no supported solid fill or stroke."@
}

pub open spec fn inside_outside() -> Seq<char> {
    "Inside/outside Photoshop strokes are not supported yet; the vector is not rasterized."@
}

pub open spec fn dashed() -> Seq<char> {
    "Dashed Photoshop vector strokes are not supported yet."@
}

pub open spec fn blend_unsupported() -> Seq<char> {
    "Photoshop stroke blend mode is not supported."@
}

pub open spec fn stroke_color_missing() -> Seq<char> {
    "Photoshop stroke color is missing"@
}

/// The cap or join code of an enumerated value: `first` names 1, `second`
/// names 2, anything else 0.
pub open spec fn style_code(e: Option<Seq<u8>>, first: Seq<u8>, second: Seq<u8>) -> u8 {
    match e {
        Some(v) => if v == first { 1 } else if v == second { 2 } else { 0 },
        None => 0,
    }
}

/// The stroke of a style descriptor, if it is enabled, or why it is refused.
pub open spec fn w_stroke(d: Seq<(Seq<u8>, ValueView)>) -> Result<Option<StrokeStyle>, Seq<char>> {
    if !w_bool(d, "strokeEnabled".spec_bytes(), false) {
        Ok(None)
    } else {
        match w_measure(d, "strokeStyleLineWidth".spec_bytes()) {
            Err(e) => Err(e),
            Ok(width) => {
                let align = w_enum(d, "strokeStyleLineAlignment".spec_bytes());
                let blend = w_enum(d, "strokeStyleBlendMode".spec_bytes());
                if align is Some && align->Some_0 != "strokeStyleAlignCenter".spec_bytes() {
                    Err(inside_outside())
                } else if w_nonempty_list(d, "strokeStyleLineDashSet".spec_bytes()) {
                    Err(dashed())
                } else if blend is Some && blend->Some_0 != "Nrml".spec_bytes() && blend->Some_0 != "normal".spec_bytes() {
                    Err(blend_unsupported())
                } else {
                    match w_object(d, "strokeStyleContent".spec_bytes()) {
                        None => Err(stroke_color_missing()),
                        Some(content) => match w_color(content) {
                            Err(e) => Err(e),
                            Ok(c) => Ok(Some(StrokeStyle {
                                color: c,
                                opacity: w_number(d, "strokeStyleOpacity".spec_bytes()),
                                width,
                                cap: style_code(w_enum(d, "strokeStyleLineCapType".spec_bytes()),
                                    "strokeStyleRoundCap".spec_bytes(), "strokeStyleSquareCap".spec_bytes()),
                                join: style_code(w_enum(d, "strokeStyleLineJoinType".spec_bytes()),
                                    "strokeStyleRoundJoin".spec_bytes(), "strokeStyleBevelJoin".spec_bytes()),
                                miter: w_number(d, "strokeStyleMiterLimit".spec_bytes()),
                            })),
                        },
                    }
                }
            },
        }
    }
}

/// The paint of a vector shape from its fill block and its style block,
/// or why it is refused.
pub open spec fn w_shape_paint(fill: Option<Seq<u8>>, style: Option<Seq<u8>>) -> Result<ShapePaint, Seq<char>> {
    let f: Result<Option<ColorModel>, Seq<char>> = match fill {
        None => Ok(None),
        Some(b) => match d_block(b) {
            Err(e) => Err(e),
            Ok(ws) => match w_color(ws) {
                Ok(c) => Ok(Some(c)),
                Err(e) => Err(e),
            },
        },
    };
    match f {
        Err(e) => Err(e),
        Ok(fill_color) => {
            let s: Result<(Option<ColorModel>, Option<StrokeStyle>), Seq<char>> = match style {
                None => Ok((fill_color, None)),
                Some(b) => match d_block(b) {
                    Err(e) => Err(e),
                    Ok(d) => {
                        let kept = if w_bool(d, "fillEnabled".spec_bytes(), true) { fill_color } else { None };
                        match w_stroke(d) {
                            Err(e) => Err(e),
                            Ok(stroke) => Ok((kept, stroke)),
                        }
                    },
                },
            };
            match s {
                Err(e) => Err(e),
                Ok((fc, st)) => if fc is None && st is None {
                    Err(no_paint())
                } else {
                    Ok(ShapePaint { fill: fc, stroke: st })
                },
            }
        },
    }
}

/// The stroke of a style descriptor, if it is enabled.
fn stroke_of(d: &Vec<DescEntry>, Ghost(ws): Ghost<Seq<(Seq<u8>, ValueView)>>) -> (res: Result<Option<StrokeStyle>, String>)
    requires
        entries_are(d@, ws),
    ensures
        match w_stroke(ws) {
            Ok(st) => res == Ok::<Option<StrokeStyle>, String>(st),
            Err(e) => res matches Err(x) && x@ == e,
        },
{
    if !boolean(d, "strokeEnabled", false, Ghost(ws)) {
        return Ok(None);
    }
    let width = measure(d, "strokeStyleLineWidth", Ghost(ws))?;
    if let Some(a) = enumeration(d, "strokeStyleLineAlignment", Ghost(ws)) {
        if !enum_is(a, "strokeStyleAlignCenter") {
            return Err(String::from_str("Inside/outside Photoshop strokes are not supported yet; the vector is not rasterized."));
        }
    }
    if nonempty_list(d, "strokeStyleLineDashSet", Ghost(ws)) {
        return Err(String::from_str("Dashed Photoshop vector strokes are not supported yet."));
    }
    if let Some(m) = enumeration(d, "strokeStyleBlendMode", Ghost(ws)) {
        if !enum_is(m, "Nrml") && !enum_is(m, "normal") {
            return Err(String::from_str("Photoshop stroke blend mode is not supported."));
        }
    }
    let content = match object(d, "strokeStyleContent", Ghost(ws)) {
        Some(c) => c,
        None => return Err(String::from_str("Photoshop stroke color is missing")),
    };
    let ghost cw = w_object(ws, "strokeStyleContent".spec_bytes())->Some_0;
    let c = color(content, Ghost(cw))?;
    let cap: u8 = match enumeration(d, "strokeStyleLineCapType", Ghost(ws)) {
        Some(v) => if enum_is(v, "strokeStyleRoundCap") { 1 } else if enum_is(v, "strokeStyleSquareCap") { 2 } else { 0 },
        None => 0,
    };
    let join: u8 = match enumeration(d, "strokeStyleLineJoinType", Ghost(ws)) {
        Some(v) => if enum_is(v, "strokeStyleRoundJoin") { 1 } else if enum_is(v, "strokeStyleBevelJoin") { 2 } else { 0 },
        None => 0,
    };
    Ok(Some(StrokeStyle {
        color: c,
        opacity: number(d, "strokeStyleOpacity", Ghost(ws)),
        width,
        cap,
        join,
        miter: number(d, "strokeStyleMiterLimit", Ghost(ws)),
    }))
}

/// The paint of a vector shape from its fill block and its style block:
/// the fill color, kept unless the style disables it, and the stroke if the
/// style enables one.
pub fn shape_paint(fill: Option<&[u8]>, style: Option<&[u8]>) -> (res: Result<ShapePaint, String>)
    ensures
        match w_shape_paint(
            match fill { Some(b) => Some(b@), None => None },
            match style { Some(b) => Some(b@), None => None },
        ) {
            Ok(p) => res == Ok::<ShapePaint, String>(p),
            Err(e) => res matches Err(x) && x@ == e,
        },
{
    let fill_color = match fill {
        None => None,
        Some(b) => {
            let d = descriptor_block(b)?;
            let ghost ws = d_block(b@)->Ok_0;
            Some(color(&d, Ghost(ws))?)
        },
    };
    let (kept, stroke) = match style {
        None => (fill_color, None),
        Some(b) => {
            let d = descriptor_block(b)?;
            let ghost ws = d_block(b@)->Ok_0;
            let kept = if boolean(&d, "fillEnabled", true, Ghost(ws)) { fill_color } else { None };
            let stroke = stroke_of(&d, Ghost(ws))?;
            (kept, stroke)
        },
    };
    if kept.is_none() && stroke.is_none() {
        return Err(String::from_str("This Photoshop vector has no supported solid fill or stroke."));
    }
    Ok(ShapePaint { fill: kept, stroke })
}

/// A CMYK solid color takes each channel from its own key: cyan from
/// `Cyn `, magenta from `Mgnt`, yellow from `Ylw ` and black from `Blck`,
/// both where a content descriptor is read and where a shape's fill block is.
pub proof fn law_cmyk_channels_by_key(ws: Seq<(Seq<u8>, ValueView)>, c: Seq<(Seq<u8>, ValueView)>,
    cyan: u64, magenta: u64, yellow: u64, black: u64, fill: Seq<u8>)
    requires
        lookup(ws, "Clr ".spec_bytes()) == Some(ValueView::Object(c)),
        lookup(c, "Rd  ".spec_bytes()) is None,
        lookup(c, "Gry ".spec_bytes()) is None,
        lookup(c, "Cyn ".spec_bytes()) == Some(ValueView::Double(cyan)),
        lookup(c, "Mgnt".spec_bytes()) == Some(ValueView::Double(magenta)),
        lookup(c, "Ylw ".spec_bytes()) == Some(ValueView::Double(yellow)),
        lookup(c, "Blck".spec_bytes()) == Some(ValueView::Double(black)),
    ensures
        w_color(ws) == Ok::<ColorModel, Seq<char>>(ColorModel::Cmyk(StyleNumber::Double(cyan),
            StyleNumber::Double(magenta), StyleNumber::Double(yellow), StyleNumber::Double(black))),
        d_block(fill) == Ok::<Seq<(Seq<u8>, ValueView)>, Seq<char>>(ws) ==> w_shape_paint(Some(fill), None)
            == Ok::<ShapePaint, Seq<char>>(ShapePaint {
                fill: Some(ColorModel::Cmyk(StyleNumber::Double(cyan), StyleNumber::Double(magenta),
                    StyleNumber::Double(yellow), StyleNumber::Double(black))),
                stroke: None,
            }),
{
}

/// An RGB solid color takes red from `Rd  `, green from `Grn ` and blue from
/// `Bl  `; a gray one (no red) takes its level from `Gry `.
pub proof fn law_rgb_and_gray_channels_by_key(ws: Seq<(Seq<u8>, ValueView)>, c: Seq<(Seq<u8>, ValueView)>,
    red: u64, green: u64, blue: u64, gray: u64)
    requires
        lookup(ws, "Clr ".spec_bytes()) == Some(ValueView::Object(c)),
    ensures
        lookup(c, "Rd  ".spec_bytes()) == Some(ValueView::Double(red))
            && lookup(c, "Grn ".spec_bytes()) == Some(ValueView::Double(green))
            && lookup(c, "Bl  ".spec_bytes()) == Some(ValueView::Double(blue))
            ==> w_color(ws) == Ok::<ColorModel, Seq<char>>(ColorModel::Rgb(StyleNumber::Double(red),
                StyleNumber::Double(green), StyleNumber::Double(blue))),
        lookup(c, "Rd  ".spec_bytes()) is None && lookup(c, "Gry ".spec_bytes()) == Some(ValueView::Double(gray))
            ==> w_color(ws) == Ok::<ColorModel, Seq<char>>(ColorModel::Gray(StyleNumber::Double(gray))),
{
}

} // verus!
