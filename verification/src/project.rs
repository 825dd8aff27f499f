//! Native projects inside editable PSDs: finding the embedded project
//! resource, the fingerprint that detects edits made outside the
//! application, and the framing of the saved project data.
use vstd::prelude::*;
use crate::drawing::brush::{BrushTip, TipView, avail, be16, be32, signature_8bim};
use std::sync::Arc;
use crate::gzip::{gzip_encode, gzip_read, gzip_read_to_end, gzip_write};
use crate::text::{str_chars, string_from_chars};
use crate::export::psd_vectors::{be64_bytes, be_u64};

verus! {

/// The largest compressed project, in bytes.
pub const MAX_FILE: u64 = 536_870_912;

/// The start value of the 64-bit FNV-1a hash.
pub open spec fn fnv_offset() -> u64 {
    0xcbf2_9ce4_8422_2325u64
}

/// One byte folded into an FNV-1a hash.
pub open spec fn fnv_step(hash: u64, byte: u8) -> u64 {
    (hash ^ (byte as u64)).wrapping_mul(0x100_0000_01b3u64)
}

/// Whether file position `pos` lies in the skipped range (start, length).
pub open spec fn skipped(pos: int, skip: (u64, u64)) -> bool {
    skip.0 <= pos < skip.0 + skip.1
}

/// The hash after folding in `bytes`, the first of them at file position
/// `start`, leaving out those in the skipped range.
pub open spec fn fingerprint_from(hash: u64, start: int, bytes: Seq<u8>, skip: (u64, u64)) -> u64
    decreases bytes.len(),
{
    if bytes.len() == 0 {
        hash
    } else {
        let before = fingerprint_from(hash, start, bytes.drop_last(), skip);
        if skipped(start + bytes.len() - 1, skip) { before } else { fnv_step(before, bytes.last()) }
    }
}

/// The fingerprint of a whole file, leaving out the skipped range.
pub open spec fn fingerprint(bytes: Seq<u8>, skip: (u64, u64)) -> u64 {
    fingerprint_from(fnv_offset(), 0, bytes, skip)
}

/// Fold the next `chunk` of a file, starting at position `pos`, into
/// `hash`; the new hash and position are returned.
pub fn fingerprint_update(hash: u64, pos: u64, chunk: &[u8], skip: (u64, u64)) -> (r: (u64, u64))
    requires
        pos + chunk@.len() <= u64::MAX,
        skip.0 + skip.1 <= u64::MAX,
    ensures
        r.0 == fingerprint_from(hash, pos as int, chunk@, skip),
        r.1 == pos + chunk@.len(),
{
    let mut h = hash;
    let mut p = pos;
    let mut i: usize = 0;
    while i < chunk.len()
        invariant
            i <= chunk@.len(),
            p == pos + i,
            pos + chunk@.len() <= u64::MAX,
            skip.0 + skip.1 <= u64::MAX,
            h == fingerprint_from(hash, pos as int, chunk@.take(i as int), skip),
        decreases chunk@.len() - i,
    {
        assert(chunk@.take(i + 1).drop_last() =~= chunk@.take(i as int));
        let byte = chunk[i];
        if p < skip.0 || p >= skip.0 + skip.1 {
            h = (h ^ (byte as u64)).wrapping_mul(0x100_0000_01b3u64);
        }
        p += 1;
        i += 1;
    }
    assert(chunk@.take(chunk@.len() as int) =~= chunk@);
    (h, p)
}

/// The fingerprint of a whole file, leaving out the skipped range.
pub fn psd_fingerprint(bytes: &[u8], skip: (u64, u64)) -> (h: u64)
    requires
        bytes@.len() <= u64::MAX,
        skip.0 + skip.1 <= u64::MAX,
    ensures
        h == fingerprint(bytes@, skip),
{
    fingerprint_update(0xcbf2_9ce4_8422_2325u64, 0, bytes, skip).0
}

/// Hashing a file in two pieces gives what hashing it whole does.
pub proof fn lemma_fingerprint_in_pieces(hash: u64, start: int, a: Seq<u8>, b: Seq<u8>, skip: (u64, u64))
    ensures
        fingerprint_from(fingerprint_from(hash, start, a, skip), start + a.len(), b, skip)
            == fingerprint_from(hash, start, a + b, skip),
    decreases b.len(),
{
    if b.len() == 0 {
        assert(a + b =~= a);
    } else {
        lemma_fingerprint_in_pieces(hash, start, a, b.drop_last(), skip);
        assert((a + b).drop_last() =~= a + b.drop_last());
    }
}

/// Bytes inside the skipped range do not change the fingerprint: two files
/// of the same length that differ only there have the same one.
pub proof fn lemma_fingerprint_ignores_skipped(hash: u64, start: int, a: Seq<u8>, b: Seq<u8>, skip: (u64, u64))
    requires
        a.len() == b.len(),
        forall|i: int| 0 <= i < a.len() && !skipped(start + i, skip) ==> a[i] == b[i],
    ensures
        fingerprint_from(hash, start, a, skip) == fingerprint_from(hash, start, b, skip),
    decreases a.len(),
{
    if a.len() > 0 {
        lemma_fingerprint_ignores_skipped(hash, start, a.drop_last(), b.drop_last(), skip);
        if !skipped(start + a.len() - 1, skip) {
            assert(a[a.len() - 1] == b[a.len() - 1]);
        }
    }
}

/// What reading past the end of a file reports.
pub open spec fn eof() -> Seq<char> {
    "failed to fill whole buffer"@
}

pub open spec fn not_a_psd() -> Seq<char> {
    "Not a supported PSD file"@
}

pub open spec fn truncated_resources() -> Seq<char> {
    "Truncated PSD resources"@
}

pub open spec fn invalid_resource_signature() -> Seq<char> {
    "Invalid PSD resource signature"@
}

pub open spec fn truncated_resource() -> Seq<char> {
    "Truncated PSD resource"@
}

pub open spec fn no_project_state() -> Seq<char> {
    "This PSD has no Graphite material state to reopen. Its native paths and shape layers can be edited in Photoshop. Open a .graphite project for full material editing here."@
}

/// The start of a version 1 PSD file.
pub open spec fn psd_start() -> Seq<u8> {
    seq![0x38u8, 0x42u8, 0x50u8, 0x53u8, 0u8, 1u8]
}

/// The name of the resource that holds the embedded project.
pub open spec fn project_resource_name() -> Seq<u8> {
    seq![0x47u8, 0x72u8, 0x61u8, 0x70u8, 0x68u8, 0x69u8, 0x74u8, 0x65u8, 0x53u8, 0x74u8, 0x75u8, 0x64u8,
        0x69u8, 0x6fu8, 0x2eu8, 0x50u8, 0x72u8, 0x6fu8, 0x6au8, 0x65u8, 0x63u8, 0x74u8, 0x2eu8, 0x76u8, 0x31u8]
}

/// The resource blocks from `pos` up to `end`: the position and size of the
/// payload of the embedded project resource (id 4000), or why there is none.
pub open spec fn resource_scan(s: Seq<u8>, pos: int, end: int) -> Result<(u64, u64), Seq<char>>
    decreases end - pos,
{
    if pos >= end {
        Err(no_project_state())
    } else if !avail(s, pos, 7) {
        Err(eof())
    } else if s.subrange(pos, pos + 4) != signature_8bim() {
        Err(invalid_resource_signature())
    } else {
        let id = be16(s, pos + 4);
        let n = s[pos + 6] as int;
        let p1 = pos + 7;
        if !avail(s, p1, n) {
            Err(eof())
        } else {
            let p2 = p1 + n + (if (n + 1) % 2 != 0 { 1int } else { 0int });
            if !avail(s, p2, 4) {
                Err(eof())
            } else {
                let size = be32(s, p2);
                let p3 = p2 + 4;
                if p3 + size + size % 2 > end {
                    Err(truncated_resource())
                } else if id == 4000 && s.subrange(p1, p1 + n) == project_resource_name() {
                    Ok((p3 as u64, size as u64))
                } else {
                    resource_scan(s, p3 + size + size % 2, end)
                }
            }
        }
    }
}

/// Where the embedded project payload of PSD file `s` lies: its position
/// and size, or why it cannot be found.
pub open spec fn project_location(s: Seq<u8>) -> Result<(u64, u64), Seq<char>> {
    if !avail(s, 0, 26) {
        Err(eof())
    } else if s.subrange(0, 6) != psd_start() {
        Err(not_a_psd())
    } else if !avail(s, 26, 4) {
        Err(eof())
    } else {
        let p = 30 + be32(s, 26);
        if !avail(s, p, 4) {
            Err(eof())
        } else {
            let end = p + 4 + be32(s, p);
            if end > s.len() {
                Err(truncated_resources())
            } else {
                resource_scan(s, p + 4, end)
            }
        }
    }
}

/// The big-endian 16-bit value at `p`.
fn be16_at(data: &[u8], p: usize) -> (v: u16)
    requires
        p + 2 <= data@.len(),
    ensures
        v == be16(data@, p as int),
{
    data[p] as u16 * 256 + data[p + 1] as u16
}

/// The big-endian 32-bit value at `p`.
fn be32_at(data: &[u8], p: usize) -> (v: u32)
    requires
        p + 4 <= data@.len(),
    ensures
        v == be32(data@, p as int),
{
    ((data[p] as u32 * 256 + data[p + 1] as u32) * 256 + data[p + 2] as u32) * 256 + data[p + 3] as u32
}

/// Whether `data` holds `expected` at `p`.
fn bytes_at(data: &[u8], p: usize, expected: &[u8]) -> (b: bool)
    requires
        p + expected@.len() <= data@.len(),
    ensures
        b == (data@.subrange(p as int, p + expected@.len()) == expected@),
{
    let dl = data.len();
    let mut i: usize = 0;
    while i < expected.len()
        invariant
            i <= expected@.len(),
            dl == data@.len(),
            p + expected@.len() <= data@.len(),
            forall|q: int| 0 <= q < i ==> data@[p + q] == expected@[q],
        decreases expected@.len() - i,
    {
        if data[p + i] != expected[i] {
            assert(data@.subrange(p as int, p + expected@.len())[i as int] != expected@[i as int]);
            return false;
        }
        i += 1;
    }
    assert(data@.subrange(p as int, p + expected@.len()) =~= expected@);
    true
}

/// Where the embedded project payload of the PSD file `data` lies: its
/// position and size.
pub fn resource_location(data: &[u8]) -> (res: Result<(u64, u64), String>)
    requires
        data@.len() <= isize::MAX,
    ensures
        match project_location(data@) {
            Ok(loc) => res == Ok::<(u64, u64), String>(loc),
            Err(e) => res matches Err(x) && x@ == e,
        },
{
    let dl = data.len();
    let len = dl as u64;
    if len < 26 {
        return Err(String::from_str("failed to fill whole buffer"));
    }
    let start: [u8; 6] = [0x38, 0x42, 0x50, 0x53, 0, 1];
    assert(start@ == psd_start());
    if !bytes_at(data, 0, &start) {
        return Err(String::from_str("Not a supported PSD file"));
    }
    if len < 30 {
        return Err(String::from_str("failed to fill whole buffer"));
    }
    let p: u64 = 30 + be32_at(data, 26) as u64;
    if p > len || len - p < 4 {
        return Err(String::from_str("failed to fill whole buffer"));
    }
    let length = be32_at(data, p as usize) as u64;
    let end = p + 4 + length;
    if end > len {
        return Err(String::from_str("Truncated PSD resources"));
    }
    let signature: [u8; 4] = [0x38, 0x42, 0x49, 0x4D];
    assert(signature@ == signature_8bim());
    let name: [u8; 25] = [0x47, 0x72, 0x61, 0x70, 0x68, 0x69, 0x74, 0x65, 0x53, 0x74, 0x75, 0x64,
        0x69, 0x6f, 0x2e, 0x50, 0x72, 0x6f, 0x6a, 0x65, 0x63, 0x74, 0x2e, 0x76, 0x31];
    assert(name@ == project_resource_name());
    let mut pos = p + 4;
    while pos < end
        invariant
            len == data@.len(),
            dl == data@.len(),
            len <= isize::MAX,
            end <= len,
            signature@ == signature_8bim(),
            name@ == project_resource_name(),
            project_location(data@) == resource_scan(data@, pos as int, end as int),
        decreases end - pos,
    {
        if len - pos < 7 {
            return Err(String::from_str("failed to fill whole buffer"));
        }
        let q = pos as usize;
        assert(q as int == pos as int);
        if !bytes_at(data, q, &signature) {
            return Err(String::from_str("Invalid PSD resource signature"));
        }
        let id = be16_at(data, q + 4);
        let n = data[q + 6] as u64;
        let p1 = pos + 7;
        if len - p1 < n {
            return Err(String::from_str("failed to fill whole buffer"));
        }
        let p2 = p1 + n + if (n + 1) % 2 != 0 { 1 } else { 0 };
        if p2 > len || len - p2 < 4 {
            return Err(String::from_str("failed to fill whole buffer"));
        }
        let size = be32_at(data, p2 as usize) as u64;
        let p3 = p2 + 4;
        if p3 + size + size % 2 > end {
            return Err(String::from_str("Truncated PSD resource"));
        }
        if id == 4000 && n == 25 && bytes_at(data, p1 as usize, &name) {
            return Ok((p3, size));
        }
        proof {
            if id == 4000 && n != 25 {
                assert(data@.subrange(p1 as int, p1 + n).len() != project_resource_name().len());
            }
        }
        pos = p3 + size + size % 2;
    }
    Err(String::from_str("This PSD has no Graphite material state to reopen. Its native paths and shape layers can be edited in Photoshop. Open a .graphite project for full material editing here."))
}

/// The big-endian 64-bit value at `p`.
pub open spec fn be64(s: Seq<u8>, p: int) -> int {
    be32(s, p) * 0x1_0000_0000 + be32(s, p + 4)
}

/// The tag that opens an embedded project payload.
pub open spec fn psd_magic() -> Seq<u8> {
    seq![0x47u8, 0x53u8, 0x50u8, 0x52u8, 0x4Fu8, 0x4Au8, 0x30u8, 0x31u8]
}

/// The tag that opens a native project file.
pub open spec fn project_magic() -> Seq<u8> {
    seq![0x47u8, 0x52u8, 0x41u8, 0x50u8, 0x48u8, 0x49u8, 0x54u8, 0x45u8, 1u8]
}

pub open spec fn unsupported_embedded_size() -> Seq<char> {
    "Unsupported embedded project size"@
}

pub open spec fn unsupported_embedded_version() -> Seq<char> {
    "Unsupported Graphite PSD project version"@
}

pub open spec fn changed_outside() -> Seq<char> {
    "This PSD was changed outside Graphite Studio. Its Photoshop geometry remains usable, but the saved Graphite material state no longer matches. Open the .graphite project to continue here; external pixel/path edits are not imported."@
}

/// Why the project embedded at `loc` of PSD file `s` cannot be reopened,
/// if it can not: a size out of range, a missing tag, or a fingerprint that
/// no longer matches the rest of the file.
pub open spec fn embedded_check(s: Seq<u8>, loc: (u64, u64)) -> Option<Seq<char>> {
    if loc.1 < 25 || loc.1 > MAX_FILE + 25 {
        Some(unsupported_embedded_size())
    } else if !avail(s, loc.0 as int, 16) {
        Some(eof())
    } else if s.subrange(loc.0 as int, loc.0 + 8) != psd_magic() {
        Some(unsupported_embedded_version())
    } else if be64(s, loc.0 + 8) != fingerprint(s, loc) {
        Some(changed_outside())
    } else {
        None
    }
}

/// The big-endian 64-bit value at `p`.
fn be64_at(data: &[u8], p: usize) -> (v: u64)
    requires
        p + 8 <= data@.len(),
    ensures
        v == be64(data@, p as int),
{
    let n = data.len();
    let hi = be32_at(data, p) as u64;
    let lo = be32_at(data, p + 4) as u64;
    hi * 0x1_0000_0000 + lo
}

/// Check that the project embedded at `location` of PSD file `data` can be
/// reopened: its size, its tag, and the fingerprint of the rest of the
/// file.
pub fn check_embedded(data: &[u8], location: (u64, u64)) -> (res: Result<(), String>)
    requires
        data@.len() <= isize::MAX,
        location.0 + location.1 <= u64::MAX,
    ensures
        match embedded_check(data@, location) {
            None => res is Ok,
            Some(e) => res matches Err(x) && x@ == e,
        },
{
    if location.1 < 25 || location.1 > MAX_FILE + 25 {
        return Err(String::from_str("Unsupported embedded project size"));
    }
    let fingerprint = psd_fingerprint(data, location);
    let len = data.len() as u64;
    if location.0 > len || len - location.0 < 16 {
        return Err(String::from_str("failed to fill whole buffer"));
    }
    let at = location.0 as usize;
    let magic: [u8; 8] = [0x47, 0x53, 0x50, 0x52, 0x4F, 0x4A, 0x30, 0x31];
    assert(magic@ == psd_magic());
    if !bytes_at(data, at, &magic) {
        return Err(String::from_str("Unsupported Graphite PSD project version"));
    }
    if be64_at(data, at + 8) != fingerprint {
        return Err(String::from_str("This PSD was changed outside Graphite Studio. Its Photoshop geometry remains usable, but the saved Graphite material state no longer matches. Open the .graphite project to continue here; external pixel/path edits are not imported."));
    }
    Ok(())
}

/// The payload of the embedded project resource: the tag, room for the
/// fingerprint, and the native project file.
pub open spec fn payload_bytes(compressed: Seq<u8>) -> Seq<u8> {
    psd_magic() + Seq::new(8, |_i: int| 0u8) + project_magic() + compressed
}

/// The payload of the embedded project resource for the compressed project
/// data `compressed`, which may not exceed 512 MiB.
pub fn embedded_payload(compressed: &[u8]) -> (res: Result<Vec<u8>, String>)
    ensures
        compressed@.len() > MAX_FILE ==> (res matches Err(e) && e@ == "Project data exceeds 512 MB"@),
        compressed@.len() <= MAX_FILE ==> (res matches Ok(p) && p@ == payload_bytes(compressed@)),
{
    if compressed.len() as u64 > MAX_FILE {
        return Err(String::from_str("Project data exceeds 512 MB"));
    }
    let mut out: Vec<u8> = Vec::new();
    let head: [u8; 25] = [0x47, 0x53, 0x50, 0x52, 0x4F, 0x4A, 0x30, 0x31, 0, 0, 0, 0, 0, 0, 0, 0,
        0x47, 0x52, 0x41, 0x50, 0x48, 0x49, 0x54, 0x45, 1];
    out.extend_from_slice(&head);
    out.extend_from_slice(compressed);
    proof {
        assert(out@.len() == 25 + compressed@.len());
        assert forall|i: int| 0 <= i < out@.len() implies #[trigger] out@[i] == payload_bytes(compressed@)[i] by {
            if i < 25 {
                assert(cloned::<u8>(head@[i], out@[i]));
            } else {
                assert(cloned::<u8>(compressed@[i - 25], out@[i]));
            }
        }
        assert(out@ =~= payload_bytes(compressed@));
    }
    Ok(out)
}

/// Check the tag that opens a native project file.
pub fn check_project_magic(data: &[u8]) -> (res: Result<(), String>)
    ensures
        !avail(data@, 0, 9) ==> (res matches Err(e) && e@ == "Not a complete Graphite project"@),
        avail(data@, 0, 9) && data@.subrange(0, 9) != project_magic()
            ==> (res matches Err(e) && e@ == "Not a supported Graphite project version"@),
        avail(data@, 0, 9) && data@.subrange(0, 9) == project_magic() ==> res is Ok,
{
    if data.len() < 9 {
        return Err(String::from_str("Not a complete Graphite project"));
    }
    let magic: [u8; 9] = [0x47, 0x52, 0x41, 0x50, 0x48, 0x49, 0x54, 0x45, 1];
    assert(magic@ == project_magic());
    if !bytes_at(data, 0, &magic) {
        return Err(String::from_str("Not a supported Graphite project version"));
    }
    Ok(())
}

/// `s` with `b` written at `at`; writing past the end first fills the gap
/// with zeros, as a file does.
pub open spec fn put_bytes(s: Seq<u8>, at: int, b: Seq<u8>) -> Seq<u8> {
    Seq::new(
        (if s.len() > at + b.len() { s.len() as int } else { at + b.len() }) as nat,
        |i: int| if at <= i < at + b.len() { b[i - at] } else if i < s.len() { s[i] } else { 0u8 },
    )
}

/// Write the eight bytes `b` at `at` of `file`, filling any gap with zeros.
fn put_eight(file: &mut Vec<u8>, at: usize, b: &Vec<u8>)
    requires
        b@.len() == 8,
        at + 8 <= isize::MAX,
    ensures
        final(file)@ == put_bytes(old(file)@, at as int, b@),
{
    let ghost s = file@;
    while file.len() < at + 8
        invariant
            s == old(file)@,
            at + 8 <= isize::MAX,
            s.len() <= file@.len(),
            file@.len() <= (if s.len() > at + 8 { s.len() as int } else { at + 8 }),
            forall|i: int| 0 <= i < s.len() ==> file@[i] == s[i],
            forall|i: int| s.len() <= i < file@.len() ==> file@[i] == 0u8,
        decreases at + 8 - file@.len(),
    {
        file.push(0);
    }
    let mut k: usize = 0;
    while k < 8
        invariant
            k <= 8,
            s == old(file)@,
            b@.len() == 8,
            at + 8 <= isize::MAX,
            file@.len() == (if s.len() > at + 8 { s.len() as int } else { at + 8 }),
            forall|i: int| 0 <= i < file@.len() && !(at <= i < at + k) && i < s.len() ==> file@[i] == s[i],
            forall|i: int| 0 <= i < file@.len() && !(at <= i < at + k) && i >= s.len() ==> file@[i] == 0u8,
            forall|i: int| at <= i < at + k ==> file@[i] == b@[i - at],
        decreases 8 - k,
    {
        file.set(at + k, b[k]);
        k += 1;
    }
    assert(file@ =~= put_bytes(s, at as int, b@));
}

/// Write the fingerprint into the embedded project of the saved PSD file
/// `file`, just after the payload's tag, and give the payload's position
/// and size.
pub fn seal(file: &mut Vec<u8>) -> (res: Result<(u64, u64), String>)
    requires
        old(file)@.len() + 16 <= isize::MAX,
    ensures
        match project_location(old(file)@) {
            Ok(loc) => res == Ok::<(u64, u64), String>(loc)
                && final(file)@ == put_bytes(old(file)@, loc.0 + 8, be64_bytes(fingerprint(old(file)@, loc) as int)),
            Err(e) => (res matches Err(x) && x@ == e) && final(file)@ == old(file)@,
        },
{
    let location = match resource_location(file.as_slice()) {
        Ok(l) => l,
        Err(e) => return Err(e),
    };
    proof {
        lemma_location_bounds(file@);
    }
    let fp = psd_fingerprint(file.as_slice(), location);
    let mut b: Vec<u8> = Vec::new();
    be_u64(&mut b, fp);
    assert(b@ == be64_bytes(fp as int));
    put_eight(file, (location.0 + 8) as usize, &b);
    Ok(location)
}

/// A found project payload lies after the scanned position and inside the
/// scanned resources.
proof fn lemma_scan_bounds(s: Seq<u8>, pos: int, end: int)
    requires
        resource_scan(s, pos, end) is Ok,
        0 <= pos,
        end <= s.len() <= u64::MAX,
    ensures
        pos + 11 <= resource_scan(s, pos, end)->Ok_0.0,
        pos + 11 + s[pos + 6] <= resource_scan(s, pos, end)->Ok_0.0,
        resource_scan(s, pos, end)->Ok_0.0 + resource_scan(s, pos, end)->Ok_0.1 <= end,
    decreases end - pos,
{
    let n = s[pos + 6] as int;
    let p1 = pos + 7;
    let p2 = p1 + n + (if (n + 1) % 2 != 0 { 1int } else { 0int });
    let size = be32(s, p2);
    let p3 = p2 + 4;
    if !(be16(s, pos + 4) == 4000 && s.subrange(p1, p1 + n) == project_resource_name()) {
        lemma_scan_bounds(s, p3 + size + size % 2, end);
    }
}

/// A found project payload lies inside the file.
pub proof fn lemma_location_bounds(s: Seq<u8>)
    requires
        project_location(s) is Ok,
        s.len() <= u64::MAX,
    ensures
        34 < project_location(s)->Ok_0.0,
        project_location(s)->Ok_0.0 + project_location(s)->Ok_0.1 <= s.len(),
{
    let p = 30 + be32(s, 26);
    lemma_scan_bounds(s, p + 4, p + 4 + be32(s, p));
}

/// The scan reads nothing at or after the payload it finds.
proof fn lemma_scan_prefix(s: Seq<u8>, t: Seq<u8>, pos: int, end: int)
    requires
        resource_scan(s, pos, end) is Ok,
        0 <= pos,
        end <= s.len() <= u64::MAX,
        t.len() == s.len(),
        forall|i: int| 0 <= i < resource_scan(s, pos, end)->Ok_0.0 ==> t[i] == s[i],
    ensures
        resource_scan(t, pos, end) == resource_scan(s, pos, end),
    decreases end - pos,
{
    lemma_scan_bounds(s, pos, end);
    let n = s[pos + 6] as int;
    let p1 = pos + 7;
    let p2 = p1 + n + (if (n + 1) % 2 != 0 { 1int } else { 0int });
    let size = be32(s, p2);
    let p3 = p2 + 4;
    assert(t.subrange(pos, pos + 4) =~= s.subrange(pos, pos + 4));
    assert(t[pos + 4] == s[pos + 4] && t[pos + 5] == s[pos + 5] && t[pos + 6] == s[pos + 6]);
    assert(t.subrange(p1, p1 + n) =~= s.subrange(p1, p1 + n));
    if !(be16(s, pos + 4) == 4000 && s.subrange(p1, p1 + n) == project_resource_name()) {
        lemma_scan_bounds(s, p3 + size + size % 2, end);
        lemma_scan_prefix(s, t, p3 + size + size % 2, end);
    }
}

/// Locating the payload reads nothing at or after it.
pub proof fn lemma_location_prefix(s: Seq<u8>, t: Seq<u8>)
    requires
        project_location(s) is Ok,
        s.len() <= u64::MAX,
        t.len() == s.len(),
        forall|i: int| 0 <= i < project_location(s)->Ok_0.0 ==> t[i] == s[i],
    ensures
        project_location(t) == project_location(s),
{
    lemma_location_bounds(s);
    let p = 30 + be32(s, 26);
    lemma_scan_bounds(s, p + 4, p + 4 + be32(s, p));
    assert(t.subrange(0, 6) =~= s.subrange(0, 6));
    assert(t[26] == s[26] && t[27] == s[27] && t[28] == s[28] && t[29] == s[29]);
    assert(t[p] == s[p] && t[p + 1] == s[p + 1] && t[p + 2] == s[p + 2] && t[p + 3] == s[p + 3]);
    lemma_scan_prefix(s, t, p + 4, p + 4 + be32(s, p));
}

/// Reading back the bytes of a 64-bit value gives the value.
pub proof fn lemma_be64_round_trip(v: u64)
    ensures
        be64(be64_bytes(v as int), 0) == v,
{
    let b = be64_bytes(v as int);
    assert(((v / 0x100_0000_0000_0000) % 256) * 0x100_0000_0000_0000 + ((v / 0x1_0000_0000_0000) % 256) * 0x1_0000_0000_0000
        + ((v / 0x100_0000_0000) % 256) * 0x100_0000_0000 + ((v / 0x1_0000_0000) % 256) * 0x1_0000_0000
        + ((v / 0x100_0000) % 256) * 0x100_0000 + ((v / 0x1_0000) % 256) * 0x1_0000
        + ((v / 0x100) % 256) * 0x100 + v % 256 == v) by (bit_vector);
}

/// A sealed file reopens: the payload is found where it was, and its tag
/// and fingerprint check out, whenever the payload holds the tag and a size
/// in range.
pub proof fn lemma_sealed_file_reopens(s: Seq<u8>, loc: (u64, u64))
    requires
        s.len() <= u64::MAX,
        project_location(s) == Ok::<(u64, u64), Seq<char>>(loc),
        25 <= loc.1 <= MAX_FILE + 25,
        s.subrange(loc.0 as int, loc.0 + 8) == psd_magic(),
    ensures
        project_location(put_bytes(s, loc.0 + 8, be64_bytes(fingerprint(s, loc) as int))) == Ok::<(u64, u64), Seq<char>>(loc),
        embedded_check(put_bytes(s, loc.0 + 8, be64_bytes(fingerprint(s, loc) as int)), loc) is None,
{
    lemma_location_bounds(s);
    let fp = fingerprint(s, loc);
    let b = be64_bytes(fp as int);
    let at = loc.0 + 8;
    let t = put_bytes(s, at, b);
    assert(t.len() == s.len());
    lemma_location_prefix(s, t);
    lemma_fingerprint_ignores_skipped(fnv_offset(), 0, s, t, loc);
    assert(t.subrange(loc.0 as int, loc.0 + 8) =~= s.subrange(loc.0 as int, loc.0 + 8));
    lemma_be64_round_trip(fp);
    assert(be64(t, at) == be64(b, 0));
}

/// The largest of `ids`, or 0 for none.
pub open spec fn max_id(ids: Seq<u64>) -> u64
    decreases ids.len(),
{
    if ids.len() == 0 {
        0
    } else {
        let m = max_id(ids.drop_last());
        if ids.last() > m { ids.last() } else { m }
    }
}

/// Whether a saved drawing's layers are well formed: one to 256 of them, the
/// active one among them, the next id above every id in use, and the
/// redraw counter not exhausted.
pub open spec fn layer_structure_valid(ids: Seq<u64>, active: int, next_layer_id: u64, revision: u64) -> bool {
    &&& 1 <= ids.len() <= 256
    &&& active < ids.len()
    &&& next_layer_id > max_id(ids)
    &&& revision != u64::MAX
}

/// Whether a saved drawing's layers, with ids `ids`, are well formed.
pub fn layer_structure_ok(ids: &[u64], active: usize, next_layer_id: u64, revision: u64) -> (b: bool)
    ensures
        b == layer_structure_valid(ids@, active as int, next_layer_id, revision),
{
    if ids.len() == 0 || ids.len() > 256 || active >= ids.len() || revision == u64::MAX {
        return false;
    }
    let mut m: u64 = 0;
    let mut i: usize = 0;
    while i < ids.len()
        invariant
            i <= ids@.len(),
            m == max_id(ids@.take(i as int)),
        decreases ids@.len() - i,
    {
        assert(ids@.take(i + 1).drop_last() =~= ids@.take(i as int));
        if ids[i] > m {
            m = ids[i];
        }
        i += 1;
    }
    assert(ids@.take(ids@.len() as int) =~= ids@);
    next_layer_id > m
}

/// Whether saved layer ids are all distinct and none is 0.
pub fn layer_ids_ok(ids: &[u64]) -> (b: bool)
    ensures
        b == ((forall|i: int| 0 <= i < ids@.len() ==> ids@[i] != 0)
            && (forall|i: int, j: int| 0 <= i < j < ids@.len() ==> ids@[i] != ids@[j])),
{
    let mut i: usize = 0;
    while i < ids.len()
        invariant
            i <= ids@.len(),
            forall|q: int| 0 <= q < i ==> ids@[q] != 0,
            forall|q: int, r: int| 0 <= q < r < i ==> ids@[q] != ids@[r],
        decreases ids@.len() - i,
    {
        if ids[i] == 0 {
            return false;
        }
        let mut j: usize = 0;
        while j < i
            invariant
                j <= i < ids@.len(),
                forall|q: int| 0 <= q < j ==> ids@[q] != ids@[i as int],
            decreases i - j,
        {
            if ids[j] == ids[i] {
                return false;
            }
            j += 1;
        }
        i += 1;
    }
    true
}

/// Whether a saved brush tip is usable: each side from 1 to 8192 pixels,
/// one mask byte per pixel, and at most 16 MiB of mask.
pub open spec fn tip_valid_view(t: TipView) -> bool {
    &&& 0 < t.width <= 8192
    &&& 0 < t.height <= 8192
    &&& t.width * t.height == t.mask.len()
    &&& t.mask.len() <= 16_777_216
}

/// Whether a saved brush tip is usable.
pub fn brush_valid(b: &BrushTip) -> (ok: bool)
    ensures
        ok == tip_valid_view(b@),
{
    if b.width == 0 || b.height == 0 || b.width > 8192 || b.height > 8192 {
        return false;
    }
    assert(b.width * b.height <= 8192 * 8192) by (nonlinear_arith)
        requires b.width <= 8192, b.height <= 8192;
    b.width * b.height == b.mask.len() && b.mask.len() <= 16_777_216
}

/// The mask bytes held by saved brush tips together.
pub open spec fn mask_total(tips: Seq<Arc<BrushTip>>) -> int
    decreases tips.len(),
{
    if tips.len() == 0 { 0 } else { mask_total(tips.drop_last()) + tips.last()@.mask.len() }
}

/// Whether a project's saved brush tips are usable: at most 512 of them,
/// each usable, with at most 64 MiB of mask together.
pub open spec fn brushes_valid_view(tips: Seq<Arc<BrushTip>>) -> bool {
    &&& tips.len() <= 512
    &&& forall|i: int| 0 <= i < tips.len() ==> #[trigger] tip_valid_view(tips[i]@)
    &&& mask_total(tips) <= 64 * 1024 * 1024
}

proof fn lemma_mask_total_grows(tips: Seq<Arc<BrushTip>>, i: int, j: int)
    requires
        0 <= i <= j <= tips.len(),
    ensures
        mask_total(tips.take(i)) <= mask_total(tips.take(j)),
    decreases j - i,
{
    if i < j {
        lemma_mask_total_grows(tips, i, j - 1);
        assert(tips.take(j).drop_last() =~= tips.take(j - 1));
    }
}

/// Whether a project's saved brush tips are usable.
pub fn brushes_valid(brushes: &[Arc<BrushTip>]) -> (ok: bool)
    ensures
        ok == brushes_valid_view(brushes@),
{
    let n = brushes.len();
    if n > 512 {
        return false;
    }
    let mut i: usize = 0;
    while i < n
        invariant
            n == brushes@.len() <= 512,
            i <= n,
            forall|q: int| 0 <= q < i ==> #[trigger] tip_valid_view(brushes@[q]@),
        decreases n - i,
    {
        if !brush_valid(&brushes[i]) {
            return false;
        }
        i += 1;
    }
    let mut total: usize = 0;
    let mut k: usize = 0;
    while k < n
        invariant
            n == brushes@.len() <= 512,
            k <= n,
            total == mask_total(brushes@.take(k as int)),
            total <= 64 * 1024 * 1024,
        decreases n - k,
    {
        assert(brushes@.take(k + 1).drop_last() =~= brushes@.take(k as int));
        let len = brushes[k].mask.len();
        if len > 64 * 1024 * 1024 - total {
            proof {
                lemma_mask_total_grows(brushes@, k + 1, n as int);
                assert(brushes@.take(n as int) =~= brushes@);
            }
            return false;
        }
        total = total + len;
        k += 1;
    }
    assert(brushes@.take(n as int) =~= brushes@);
    true
}

/// Why a native project file's tag is refused, if it is.
pub open spec fn project_magic_error(p: Seq<u8>) -> Option<Seq<char>> {
    if !avail(p, 0, 9) {
        Some("Not a complete Graphite project"@)
    } else if p.subrange(0, 9) != project_magic() {
        Some("Not a supported Graphite project version"@)
    } else {
        None
    }
}

/// The native project file embedded in the PSD `s`, or why there is none
/// that reopens: the payload found, checked against its tag and the
/// fingerprint of the rest of the file, less its 16-byte header.
pub open spec fn embedded_project_file(s: Seq<u8>) -> Result<Seq<u8>, Seq<char>> {
    match project_location(s) {
        Err(e) => Err(e),
        Ok(loc) => match embedded_check(s, loc) {
            Some(e) => Err(e),
            None => {
                let p = s.subrange(loc.0 + 16, loc.0 + loc.1);
                match project_magic_error(p) {
                    Some(e) => Err(e),
                    None => Ok(p),
                }
            },
        },
    }
}

/// The native project file embedded in the PSD `data`, checked: it is
/// found, its tag and fingerprint match, and it opens with the native tag.
pub fn embedded_project(data: &[u8]) -> (res: Result<Vec<u8>, String>)
    requires
        data@.len() <= isize::MAX,
    ensures
        match embedded_project_file(data@) {
            Ok(p) => res matches Ok(v) && v@ == p,
            Err(e) => res matches Err(x) && x@ == e,
        },
{
    let location = resource_location(data)?;
    proof {
        lemma_location_bounds(data@);
    }
    check_embedded(data, location)?;
    let start = location.0 as usize + 16;
    let end = (location.0 + location.1) as usize;
    let mut project: Vec<u8> = Vec::new();
    let mut i: usize = start;
    while i < end
        invariant
            start <= i <= end <= data@.len(),
            project@ == data@.subrange(start as int, i as int),
        decreases end - i,
    {
        project.push(data[i]);
        assert(project@ =~= data@.subrange(start as int, i + 1));
        i += 1;
    }
    check_project_magic(project.as_slice())?;
    Ok(project)
}

/// The most project data, in bytes, a native project holds once
/// decompressed.
pub const MAX_DECODED: u64 = 2_147_483_648;

/// The project data of the native project file `file`: its tag checked, the
/// gzip stream after the tag decompressed, reading at most one byte more
/// than [`MAX_DECODED`] so that larger data shows; or why it does not open.
pub open spec fn project_contents(file: Seq<u8>) -> Result<Seq<u8>, Seq<char>> {
    match project_magic_error(file) {
        Some(e) => Err(e),
        None => match gzip_read_to_end(file.subrange(9, file.len() as int), (MAX_DECODED + 1) as nat) {
            Ok(data) => Ok(data),
            Err(m) => Err("Project data is incomplete or invalid: "@ + m),
        },
    }
}

/// The project data of a native project file, or why it does not open:
/// the tag, then the gzip-compressed data.
pub fn project_text(file: &[u8]) -> (res: Result<Vec<u8>, String>)
    ensures
        match project_contents(file@) {
            Ok(data) => res matches Ok(v) && v@ == data && data.len() <= MAX_DECODED + 1,
            Err(e) => res matches Err(x) && x@ == e,
        },
{
    match check_project_magic(file) {
        Ok(()) => {},
        Err(e) => return Err(e),
    }
    let rest = &file[9..file.len()];
    assert(rest@ =~= file@.subrange(9, file@.len() as int));
    match gzip_read(rest, MAX_DECODED + 1) {
        Ok(data) => Ok(data),
        Err(m) => {
            let mut message = str_chars("Project data is incomplete or invalid: ");
            let mut detail = str_chars(m.as_str());
            message.append(&mut detail);
            Err(string_from_chars(message.as_slice()))
        },
    }
}

/// The project data of a native project file read from disk: a file
/// larger than [`MAX_FILE`] and its tag is refused before anything is
/// decompressed.
pub fn project_file_text(file: &[u8]) -> (res: Result<Vec<u8>, String>)
    ensures
        file@.len() > MAX_FILE + 9 ==> (res matches Err(x) && x@ == "Project file exceeds 512 MB"@),
        file@.len() <= MAX_FILE + 9 ==> match project_contents(file@) {
            Ok(data) => res matches Ok(v) && v@ == data,
            Err(e) => res matches Err(x) && x@ == e,
        },
{
    if file.len() as u64 > MAX_FILE + 9 {
        return Err(String::from_str("Project file exceeds 512 MB"));
    }
    project_text(file)
}

/// Whether decompressed project data is within [`MAX_DECODED`]; data read
/// up to one byte beyond it is refused once it is parsed.
pub fn decoded_within_limit(data: &[u8]) -> (b: bool)
    ensures
        b == (data@.len() <= MAX_DECODED),
{
    data.len() as u64 <= MAX_DECODED
}

/// The gzip stream of the project data `json`, as a project is written:
/// data larger than [`MAX_DECODED`] is refused. The stream reads back as
/// `json` through the limit a project is read with.
pub fn project_stream(json: &[u8]) -> (res: Result<Vec<u8>, String>)
    ensures
        json@.len() > MAX_DECODED ==> (res matches Err(x) && x@ == "Project exceeds the supported save size"@),
        json@.len() <= MAX_DECODED ==> (res matches Ok(v) && v@ == gzip_encode(json@)
            && gzip_read_to_end(v@, (MAX_DECODED + 1) as nat) == Ok::<Seq<u8>, Seq<char>>(json@)),
{
    if json.len() as u64 > MAX_DECODED {
        return Err(String::from_str("Project exceeds the supported save size"));
    }
    let r = gzip_write(json);
    proof {
        assert(gzip_read_to_end(r.unwrap()@, (MAX_DECODED + 1) as nat) == Ok::<Seq<u8>, Seq<char>>(json@));
    }
    r
}

/// The native project file of the project data `json`: the tag, then the
/// gzip stream of the data; data or a stream larger than the limits is
/// refused. A file written reads back, through [`project_text`] and
/// [`project_file_text`], as `json`.
pub fn project_file(json: &[u8]) -> (res: Result<Vec<u8>, String>)
    ensures
        json@.len() > MAX_DECODED ==> (res matches Err(x) && x@ == "Project exceeds the supported save size"@),
        json@.len() <= MAX_DECODED && gzip_encode(json@).len() > MAX_FILE
            ==> (res matches Err(x) && x@ == "Project exceeds the supported save size"@),
        json@.len() <= MAX_DECODED && gzip_encode(json@).len() <= MAX_FILE ==> (res matches Ok(f)
            && f@ == project_magic() + gzip_encode(json@)
            && f@.len() <= MAX_FILE + 9
            && project_contents(f@) == Ok::<Seq<u8>, Seq<char>>(json@)),
{
    let compressed = project_stream(json)?;
    if compressed.len() as u64 > MAX_FILE {
        return Err(String::from_str("Project exceeds the supported save size"));
    }
    let ghost body_view = compressed@;
    let mut file: Vec<u8> = vec![0x47, 0x52, 0x41, 0x50, 0x48, 0x49, 0x54, 0x45, 1];
    assert(file@ == project_magic());
    let mut body = compressed;
    file.append(&mut body);
    proof {
        assert(file@.subrange(0, 9) =~= project_magic());
        assert(file@.subrange(9, file@.len() as int) =~= body_view);
        assert(project_magic_error(file@) is None);
    }
    Ok(file)
}

} // verus!
