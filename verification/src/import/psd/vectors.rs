//! Photoshop path records: saved paths and vector masks, as Bézier knots in
//! PSD fixed-point coordinates, where 1 << 24 spans the canvas.
use vstd::prelude::*;
use crate::drawing::brush::{avail, be16, be32, signed32};
use crate::import::psd::{psd_take_error, Cursor};
use crate::import::psd::layers::read_i32;

verus! {

/// A point in PSD fixed-point path coordinates.
#[derive(Debug, Clone, Copy, PartialEq, Eq, Structural)]
pub struct FixedPoint {
    pub x: i32,
    pub y: i32,
}

/// A Bézier knot: its anchor and the control points before and after it.
#[derive(Debug, Clone, Copy, PartialEq, Eq, Structural)]
pub struct PathKnot {
    pub before: FixedPoint,
    pub anchor: FixedPoint,
    pub after: FixedPoint,
}

/// One subpath: its knots, whether it is closed, and how it combines with
/// the others (0 to 3).
#[derive(Debug, Clone)]
pub struct Subpath {
    pub knots: Vec<PathKnot>,
    pub closed: bool,
    pub operation: u16,
}

/// The mathematical content of a [`Subpath`].
pub struct SubpathView {
    pub knots: Seq<PathKnot>,
    pub closed: bool,
    pub operation: u16,
}

impl View for Subpath {
    type V = SubpathView;

    open spec fn view(&self) -> SubpathView {
        SubpathView { knots: self.knots@, closed: self.closed, operation: self.operation }
    }
}

/// The subpaths of a path, and whether filling starts from the whole canvas.
#[derive(Debug, Clone)]
pub struct PathRecords {
    pub paths: Vec<Subpath>,
    pub initial_fill: bool,
}

/// The views of `paths`.
pub open spec fn subpath_views(paths: Seq<Subpath>) -> Seq<SubpathView> {
    paths.map_values(|p: Subpath| p@)
}

pub open spec fn truncated_data() -> Seq<char> {
    "Truncated PSD data"@
}

pub open spec fn unsupported_operation() -> Seq<char> {
    "Unsupported Photoshop path operation."@
}

pub open spec fn too_complex() -> Seq<char> {
    "Photoshop path is too complex."@
}

pub open spec fn invalid_knot() -> Seq<char> {
    "Invalid Photoshop B\u{e9}zier knot."@
}

pub open spec fn invalid_fill_rule() -> Seq<char> {
    "Invalid Photoshop path fill rule."@
}

pub open spec fn invalid_record() -> Seq<char> {
    "Invalid Photoshop path record."@
}

pub open spec fn truncated_path() -> Seq<char> {
    "Truncated Photoshop path."@
}

/// The fixed-point value at `p`.
pub open spec fn fixed_at(s: Seq<u8>, p: int) -> i32 {
    signed32(be32(s, p)) as i32
}

/// The point at `p`: its vertical coordinate comes first.
pub open spec fn point_at(s: Seq<u8>, p: int) -> FixedPoint {
    FixedPoint { y: fixed_at(s, p), x: fixed_at(s, p + 4) }
}

/// The knot of the 26-byte record at `p`.
pub open spec fn knot_at(s: Seq<u8>, p: int) -> PathKnot {
    PathKnot { before: point_at(s, p + 2), anchor: point_at(s, p + 10), after: point_at(s, p + 18) }
}

/// Whether knot selector `k` belongs to a subpath of record kind `kind`:
/// 1 or 2 in a closed one (kind 0), 4 or 5 in an open one (kind 3).
pub open spec fn knot_selector_ok(kind: int, k: int) -> bool {
    (kind == 0 && (k == 1 || k == 2)) || (kind == 3 && (k == 4 || k == 5))
}

/// The `count` knot records from `p`, appended to `acc`.
pub open spec fn path_knots(s: Seq<u8>, p: int, count: nat, kind: int, acc: Seq<PathKnot>) -> Result<Seq<PathKnot>, Seq<char>>
    decreases count,
{
    if count == 0 {
        Ok(acc)
    } else if !avail(s, p, 2) {
        Err(psd_take_error(p, 2))
    } else if !knot_selector_ok(kind, be16(s, p)) {
        Err(invalid_knot())
    } else if !avail(s, p, 26) {
        Err(psd_take_error(p + 2, 24))
    } else {
        path_knots(s, p + 26, (count - 1) as nat, kind, acc.push(knot_at(s, p)))
    }
}

/// Whether some byte from `pos` on is not zero.
pub open spec fn nonzero_from(s: Seq<u8>, pos: int) -> bool {
    exists|i: int| pos <= i < s.len() && s[i] != 0
}

/// The path records from `pos`, after the subpaths `acc` holding `total`
/// knots: the subpaths and the fill rule, or why they are refused.
pub open spec fn path_records(s: Seq<u8>, pos: int, acc: Seq<SubpathView>, fill: bool, total: int) -> Result<(Seq<SubpathView>, bool), Seq<char>>
    decreases s.len() - pos,
{
    if pos < 0 || pos > s.len() {
        Err(truncated_data())
    } else if s.len() - pos >= 26 {
        let kind = be16(s, pos);
        let b = pos + 2;
        if kind == 0 || kind == 3 {
            let count = be16(s, b);
            let operation = be16(s, b + 2);
            if operation > 3 {
                Err(unsupported_operation())
            } else if acc.len() >= 4096 || total + count > 100_000 {
                Err(too_complex())
            } else {
                match path_knots(s, pos + 26, count as nat, kind, seq![]) {
                    Err(e) => Err(e),
                    Ok(knots) => {
                        if pos + 26 + 26 * count <= s.len() {
                            path_records(s, pos + 26 + 26 * count,
                                acc.push(SubpathView { knots, closed: kind == 0, operation: operation as u16 }),
                                fill, total + count)
                        } else {
                            Err(truncated_data())
                        }
                    },
                }
            }
        } else if kind == 6 || kind == 7 {
            path_records(s, pos + 26, acc, fill, total)
        } else if kind == 8 {
            let rule = be16(s, b);
            if rule > 1 {
                Err(invalid_fill_rule())
            } else {
                path_records(s, pos + 26, acc, rule == 1, total)
            }
        } else {
            Err(invalid_record())
        }
    } else if s.len() - pos > 3 || nonzero_from(s, pos) {
        Err(truncated_path())
    } else {
        Ok((acc, fill))
    }
}

/// The subpaths of the path records `s`, and the fill rule.
pub open spec fn psd_paths(s: Seq<u8>) -> Result<(Seq<SubpathView>, bool), Seq<char>> {
    path_records(s, 0, seq![], false, 0)
}

/// Read the knots have taken `count` records from `p`; on success they end
/// `26 * count` bytes later.
proof fn lemma_path_knots_end(s: Seq<u8>, p: int, count: nat, kind: int, acc: Seq<PathKnot>)
    requires
        path_knots(s, p, count, kind, acc) is Ok,
    ensures
        p + 26 * count <= s.len() || count == 0,
        path_knots(s, p, count, kind, acc)->Ok_0.len() == acc.len() + count,
    decreases count,
{
    if count > 0 {
        lemma_path_knots_end(s, p + 26, (count - 1) as nat, kind, acc.push(knot_at(s, p)));
    }
}

/// A point in fixed-point coordinates, vertical first.
fn read_point(r: &mut Cursor<'_>) -> (res: Result<FixedPoint, String>)
    requires
        old(r).wf(),
        avail(old(r).data@, old(r).pos as int, 8),
    ensures
        final(r).wf(),
        final(r).data@ == old(r).data@,
        final(r).pos == old(r).pos + 8,
        res == Ok::<FixedPoint, String>(point_at(old(r).data@, old(r).pos as int)),
{
    let y = read_i32(r)?;
    let x = read_i32(r)?;
    Ok(FixedPoint { x, y })
}

/// The knots of one subpath.
fn read_knots(r: &mut Cursor<'_>, count: usize, kind: u16) -> (res: Result<Vec<PathKnot>, String>)
    requires
        old(r).wf(),
    ensures
        final(r).wf(),
        final(r).data@ == old(r).data@,
        match path_knots(old(r).data@, old(r).pos as int, count as nat, kind as int, seq![]) {
            Ok(knots) => res matches Ok(v) && v@ == knots && final(r).pos == old(r).pos + 26 * count,
            Err(e) => res matches Err(x) && x@ == e,
        },
{
    let ghost s = r.data@;
    let ghost start = r.pos as int;
    let mut knots: Vec<PathKnot> = Vec::new();
    let mut j: usize = 0;
    while j < count
        invariant
            r.wf(),
            r.data@ == s,
            s == old(r).data@,
            start == old(r).pos,
            j <= count,
            r.pos == start + 26 * j,
            path_knots(s, start, count as nat, kind as int, seq![])
                == path_knots(s, r.pos as int, (count - j) as nat, kind as int, knots@),
        decreases count - j,
    {
        let p = r.pos;
        let k = match r.u16() {
            Ok(k) => k,
            Err(e) => {
                return Err(e);
            },
        };
        if !((kind == 0 && (k == 1 || k == 2)) || (kind == 3 && (k == 4 || k == 5))) {
            return Err(String::from_str("Invalid Photoshop B\u{e9}zier knot."));
        }
        if r.data.len() - r.pos < 24 {
            let e = r.take(24);
            proof {
                assert(!avail(s, p as int, 26));
            }
            return match e {
                Ok(_) => Err(String::from_str("Truncated PSD data")),
                Err(e) => Err(e),
            };
        }
        let before = read_point(r)?;
        let anchor = read_point(r)?;
        let after = read_point(r)?;
        let knot = PathKnot { before, anchor, after };
        assert(knot == knot_at(s, p as int));
        knots.push(knot);
        j += 1;
    }
    Ok(knots)
}

/// Whether some byte of `data` from `from` on is not zero.
fn any_nonzero(data: &[u8], from: usize) -> (b: bool)
    ensures
        b == nonzero_from(data@, from as int),
{
    let mut i = from;
    while i < data.len()
        invariant
            from <= i,
            forall|q: int| from <= q < i && q < data@.len() ==> data@[q] == 0,
        decreases data@.len() - i,
    {
        if data[i] != 0 {
            return true;
        }
        i += 1;
    }
    false
}

/// The subpaths and the fill rule of the path records `data`.
pub fn paths(data: &[u8]) -> (res: Result<PathRecords, String>)
    ensures
        match psd_paths(data@) {
            Ok((subpaths, fill)) => res matches Ok(p) && subpath_views(p.paths@) == subpaths && p.initial_fill == fill,
            Err(e) => res matches Err(x) && x@ == e,
        },
{
    let mut r = Cursor::new(data);
    let mut paths: Vec<Subpath> = Vec::new();
    let mut initial_fill = false;
    let mut knots_total: usize = 0;
    assert(subpath_views(paths@) =~= seq![]);
    while data.len() - r.pos >= 26
        invariant
            r.wf(),
            r.data@ == data@,
            knots_total <= 100_000,
            psd_paths(data@) == path_records(data@, r.pos as int, subpath_views(paths@), initial_fill, knots_total as int),
        decreases data@.len() - r.pos,
    {
        let ghost pos = r.pos as int;
        let ghost s = data@;
        let kind = r.u16()?;
        let body = r.take(24)?;
        assert(body@ == s.subrange(pos + 2, pos + 26));
        let mut b = Cursor::new(body);
        if kind == 0 || kind == 3 {
            let count = b.u16()? as usize;
            let operation = b.u16()?;
            assert(count == be16(s, pos + 2));
            assert(operation == be16(s, pos + 4));
            if operation > 3 {
                return Err(String::from_str("Unsupported Photoshop path operation."));
            }
            knots_total = knots_total + count;
            if paths.len() >= 4096 || knots_total > 100_000 {
                return Err(String::from_str("Photoshop path is too complex."));
            }
            let ghost before = paths@;
            let knots = read_knots(&mut r, count, kind)?;
            proof {
                lemma_path_knots_end(s, pos + 26, count as nat, kind as int, seq![]);
            }
            paths.push(Subpath { knots, closed: kind == 0, operation });
            assert(subpath_views(paths@) =~= subpath_views(before).push(
                SubpathView { knots: knots@, closed: kind == 0, operation }));
        } else if kind == 6 || kind == 7 {
        } else if kind == 8 {
            let rule = b.u16()?;
            assert(rule == be16(s, pos + 2));
            if rule > 1 {
                return Err(String::from_str("Invalid Photoshop path fill rule."));
            }
            initial_fill = rule == 1;
        } else {
            return Err(String::from_str("Invalid Photoshop path record."));
        }
    }
    if data.len() - r.pos > 3 || any_nonzero(data, r.pos) {
        return Err(String::from_str("Truncated Photoshop path."));
    }
    Ok(PathRecords { paths, initial_fill })
}

pub open spec fn unsupported_mask_version() -> Seq<char> {
    "Unsupported Photoshop vector mask version."@
}

pub open spec fn disabled_mask() -> Seq<char> {
    "Disabled Photoshop vector masks are not supported yet."@
}

/// The path of a vector-mask block, with its fill rule and whether the mask
/// is inverted, or why it is refused: only version 3 of enabled masks.
pub open spec fn psd_vector_mask(s: Seq<u8>) -> Result<(Seq<SubpathView>, bool, bool), Seq<char>> {
    if !avail(s, 0, 4) {
        Err(truncated_data())
    } else if be32(s, 0) != 3 {
        Err(unsupported_mask_version())
    } else if !avail(s, 4, 4) {
        Err(truncated_data())
    } else if (be32(s, 4) / 4) % 2 == 1 {
        Err(disabled_mask())
    } else {
        match psd_paths(s.subrange(8, s.len() as int)) {
            Ok((paths, fill)) => Ok((paths, fill, be32(s, 4) % 2 == 1)),
            Err(e) => Err(e),
        }
    }
}

/// The path of a vector-mask block and whether the mask is inverted.
pub fn vector_mask(mask: &[u8]) -> (res: Result<(PathRecords, bool), String>)
    ensures
        match psd_vector_mask(mask@) {
            Ok((subpaths, fill, inverted)) => res matches Ok((p, inv))
                && subpath_views(p.paths@) == subpaths && p.initial_fill == fill && inv == inverted,
            Err(e) => res matches Err(x) && x@ == e,
        },
{
    let mut r = Cursor::new(mask);
    if r.u32()? != 3 {
        return Err(String::from_str("Unsupported Photoshop vector mask version."));
    }
    let flags = r.u32()?;
    proof {
        assert((flags & 4 != 0) == ((flags / 4) % 2 == 1)) by (bit_vector);
        assert((flags & 1 != 0) == (flags % 2 == 1)) by (bit_vector);
    }
    if flags & 4 != 0 {
        return Err(String::from_str("Disabled Photoshop vector masks are not supported yet."));
    }
    let n = mask.len();
    let shape = paths(&mask[8..n])?;
    Ok((shape, flags & 1 != 0))
}

/// Whether an image resource id holds a saved path: ids 2000 to 2997, and
/// the work path 1025.
pub fn saved_path_resource(id: u16) -> (b: bool)
    ensures
        b == ((2000 <= id <= 2997) || id == 1025),
{
    (2000 <= id && id <= 2997) || id == 1025
}

} // verus!
