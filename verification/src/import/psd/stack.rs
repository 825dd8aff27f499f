//! The drawing layers a PSD's records become: groups flattened into name
//! prefixes, clipping bases tracked, and records the drawing cannot keep
//! refused. Each record is planned before its pixels are converted.
use vstd::prelude::*;
use crate::drawing::document::BlendMode;
use crate::text::{decode_utf8_lossy, utf8_lossy};
use super::layers::{LayerRecord, RecordView, Mask, key_blend, blend_mode, base_channels, layer_info_records, layer_size_ok,
    plane_views, read_planes, read_records, record_planes, record_views};
use crate::import::psd::Cursor;
use super::vectors::{psd_vector_mask, vector_mask};
use super::descriptor::{shape_paint, w_shape_paint};

verus! {

/// A drawing layer planned from a record.
#[derive(Debug, Clone)]
pub struct PlannedLayer {
    /// The index of the record it comes from.
    pub record: usize,
    pub name: String,
    pub visible: bool,
    pub opacity: u8,
    pub blend: BlendMode,
    /// Whether it is an editable vector layer rather than raster pixels.
    pub vector: bool,
    /// For a clipped raster layer, the layer it is clipped to.
    pub clip_base: Option<usize>,
    /// Whether some of its pixels are partly transparent, as far as integer
    /// samples show it (see [`layer_translucent`]).
    pub translucent: bool,
}

/// The mathematical content of a [`PlannedLayer`].
pub struct PlanView {
    pub record: int,
    pub name: Seq<char>,
    pub visible: bool,
    pub opacity: u8,
    pub blend: BlendMode,
    pub vector: bool,
    pub clip_base: Option<int>,
    pub translucent: bool,
}

impl PlannedLayer {
    pub open spec fn view(&self) -> PlanView {
        PlanView {
            record: self.record as int,
            name: self.name@,
            visible: self.visible,
            opacity: self.opacity,
            blend: self.blend,
            vector: self.vector,
            clip_base: match self.clip_base { Some(b) => Some(b as int), None => None },
            translucent: self.translucent,
        }
    }
}

/// The planner's state: the layers so far, the open groups (each the index
/// of its first layer) and the current clipping base.
pub struct StackView {
    pub layers: Seq<PlanView>,
    pub groups: Seq<int>,
    pub clip: Option<int>,
}

/// The blend key of pass-through groups.
pub open spec fn pass_key() -> Seq<u8> {
    seq![0x70u8, 0x61u8, 0x73u8, 0x73u8]
}

pub open spec fn group_error(name: Seq<char>) -> Seq<char> {
    "Group '"@ + name + "' uses isolated blending, opacity, masks or effects. Import currently preserves pass-through groups at full opacity."@
}

pub open spec fn effects_error(name: Seq<char>) -> Seq<char> {
    "Layer '"@ + name + "' uses Photoshop effects, adjustments, a patterned/gradient fill or a smart object that cannot be preserved yet."@
}

pub open spec fn blend_error(name: Seq<char>, key: Seq<u8>) -> Seq<char> {
    "Layer '"@ + name + "' uses unsupported blend mode '"@ + utf8_lossy(key) + "'."@
}

pub open spec fn vector_error(name: Seq<char>) -> Seq<char> {
    "Vector layer '"@ + name + "' has bitmap masks, clipping, effects or a smart object that cannot be preserved yet."@
}

/// The refusal of a clipping layer whose base is not opaque.
pub open spec fn translucent_base_error(name: Seq<char>) -> Seq<char> {
    "Clipping layer '"@ + name + "' has a translucent base. Its clipping group cannot yet be preserved without flattening."@
}

pub open spec fn incomplete_error(name: Seq<char>) -> Seq<char> {
    "Layer '"@ + name + "' has no complete raster pixels; it must be rasterized in its source app before import."@
}

/// Whether layers of color `mode` can be imported.
pub open spec fn layer_mode_ok(mode: int) -> bool {
    mode == 0 || mode == 1 || mode == 2 || mode == 8 || mode == 3 || mode == 9 || mode == 4
}

/// The layers of a closing group, from `start` on, named after the group
/// and hidden with it.
pub open spec fn close_group(layers: Seq<PlanView>, start: int, name: Seq<char>, visible: bool) -> Seq<PlanView> {
    Seq::new(layers.len(), |k: int| if k < start { layers[k] } else {
        PlanView { name: name + " / "@ + layers[k].name, visible: layers[k].visible && visible, ..layers[k] }
    })
}

/// The effect of record `i`, `rec`, on the planner's state, for a file of
/// color `mode`.
pub open spec fn stack_step(st: StackView, i: int, rec: RecordView, mode: int) -> Result<StackView, Seq<char>> {
    let name = rec.blocks.name;
    if rec.blocks.group == 3 {
        Ok(StackView { groups: st.groups.push(st.layers.len() as int), clip: None, ..st })
    } else if rec.blocks.group == 1 || rec.blocks.group == 2 {
        if st.groups.len() == 0 {
            Err("Unbalanced PSD groups"@)
        } else if rec.blocks.blend != pass_key() || rec.opacity != 255 || rec.mask is Some
            || rec.blocks.vector is Some || rec.blocks.effects {
            Err(group_error(name))
        } else {
            Ok(StackView {
                layers: close_group(st.layers, st.groups.last(), name, rec.visible),
                groups: st.groups.drop_last(),
                clip: None,
            })
        }
    } else if rec.blocks.effects {
        Err(effects_error(name))
    } else {
        match key_blend(rec.blocks.blend) {
            None => Err(blend_error(name, rec.blocks.blend)),
            Some(blend) => if rec.blocks.vector is Some || rec.blocks.fill is Some {
                if rec.mask is Some || rec.clipping {
                    Err(vector_error(name))
                } else {
                    Ok(StackView {
                        layers: st.layers.push(PlanView {
                            record: i, name, visible: rec.visible, opacity: rec.opacity, blend,
                            vector: true, clip_base: None, translucent: false,
                        }),
                        clip: Some(st.layers.len() as int),
                        ..st
                    })
                }
            } else if !layer_mode_ok(mode) {
                Err("Unsupported PSD layer color mode."@)
            } else if rec.clipping && st.clip is None {
                Err("PSD clipping layer has no base"@)
            } else if rec.clipping && !(0 <= st.clip.unwrap() < st.layers.len()) {
                Err("Invalid clipping base"@)
            } else if rec.clipping && (st.layers[st.clip.unwrap()].opacity != 255 || st.layers[st.clip.unwrap()].translucent) {
                Err(translucent_base_error(name))
            } else {
                let visible = rec.visible && (!rec.clipping || st.layers[st.clip.unwrap()].visible);
                Ok(StackView {
                    layers: st.layers.push(PlanView {
                        record: i, name, visible, opacity: rec.opacity, blend,
                        vector: false, clip_base: if rec.clipping { st.clip } else { None }, translucent: false,
                    }),
                    clip: if rec.clipping { st.clip } else { Some(st.layers.len() as int) },
                    ..st
                })
            },
        }
    }
}

/// When a group's record closes it, every layer planned inside the group (from
/// the group's first layer on) is visible exactly when it was visible before
/// and the group is visible, and takes the group's name as a prefix; the
/// layers before the group are unchanged. In particular a hidden group hides
/// all of its layers.
pub proof fn law_closing_group_hides_with_it(st: StackView, i: int, rec: RecordView, mode: int)
    requires
        rec.blocks.group == 1 || rec.blocks.group == 2,
        stack_step(st, i, rec, mode) is Ok,
    ensures
        ({
            let after = stack_step(st, i, rec, mode)->Ok_0;
            let start = st.groups.last();
            &&& after.layers.len() == st.layers.len()
            &&& after.groups == st.groups.drop_last()
            &&& forall|k: int| 0 <= k && start <= k < st.layers.len() ==> {
                &&& (#[trigger] after.layers[k]).visible <==> (st.layers[k].visible && rec.visible)
                &&& after.layers[k].name == rec.blocks.name + " / "@ + st.layers[k].name
                &&& after.layers[k].record == st.layers[k].record
                &&& after.layers[k].opacity == st.layers[k].opacity
            }
            &&& forall|k: int| 0 <= k < st.layers.len() && k < start ==> #[trigger] after.layers[k] == st.layers[k]
            &&& !rec.visible ==> forall|k: int| 0 <= k && start <= k < st.layers.len() ==> !(#[trigger] after.layers[k]).visible
        }),
{
    let after = stack_step(st, i, rec, mode)->Ok_0;
    let start = st.groups.last();
    let closed = close_group(st.layers, start, rec.blocks.name, rec.visible);
    assert(after.layers == closed);
    assert forall|k: int| 0 <= k && start <= k < st.layers.len() implies {
        &&& (#[trigger] after.layers[k]).visible <==> (st.layers[k].visible && rec.visible)
        &&& after.layers[k].name == rec.blocks.name + " / "@ + st.layers[k].name
        &&& after.layers[k].record == st.layers[k].record
        &&& after.layers[k].opacity == st.layers[k].opacity
    } by {
        assert(closed[k] == PlanView { name: rec.blocks.name + " / "@ + st.layers[k].name,
            visible: st.layers[k].visible && rec.visible, ..st.layers[k] });
    }
    assert forall|k: int| 0 <= k < st.layers.len() && k < start implies #[trigger] after.layers[k] == st.layers[k] by {
        assert(closed[k] == st.layers[k]);
    }
}

/// Whether a raster record whose channels decoded to planes `ids` has all
/// its color planes, as needed when it has pixels.
pub open spec fn raster_complete(rec: RecordView, ids: Seq<int>, mode: int) -> bool {
    rec.bounds.spec_width() * rec.bounds.spec_height() == 0
        || forall|c: int| 0 <= c < base_channels(mode) ==> ids.contains(c)
}

/// Plans the layers of a PSD record by record.
pub struct StackPlan {
    pub layers: Vec<PlannedLayer>,
    pub groups: Vec<usize>,
    pub clip: Option<usize>,
}

impl StackPlan {
    pub open spec fn view(&self) -> StackView {
        StackView {
            layers: self.layers@.map_values(|l: PlannedLayer| l.view()),
            groups: self.groups@.map_values(|g: usize| g as int),
            clip: match self.clip { Some(c) => Some(c as int), None => None },
        }
    }

    /// A planner that has seen no record.
    pub fn new() -> (p: Self)
        ensures
            p.view() == (StackView { layers: seq![], groups: seq![], clip: None }),
    {
        let p = StackPlan { layers: Vec::new(), groups: Vec::new(), clip: None };
        assert(p.view().layers =~= seq![]);
        assert(p.view().groups =~= seq![]);
        p
    }

    /// Mark group `name` as closed: its layers, from `start` on, take its
    /// name as a prefix and are hidden when it is.
    fn close(&mut self, start: usize, name: &str, visible: bool)
        ensures
            final(self).view().layers == close_group(old(self).view().layers, start as int, name@, visible),
            final(self).groups == old(self).groups,
            final(self).clip == old(self).clip,
    {
        let ghost before = self.view().layers;
        let len = self.layers.len();
        let mut k: usize = if start < len { start } else { len };
        while k < self.layers.len()
            invariant
                k <= self.layers@.len(),
                k < start ==> k == self.layers@.len(),
                self.layers@.len() == before.len(),
                self.groups == old(self).groups,
                self.clip == old(self).clip,
                forall|q: int| 0 <= q < self.layers@.len() ==> #[trigger] self.view().layers[q] ==
                    if q < k { close_group(before, start as int, name@, visible)[q] } else { before[q] },
            decreases self.layers@.len() - k,
        {
            let old_layer = &self.layers[k];
            let full = quoted(name, " / ", old_layer.name.as_str());
            let layer = PlannedLayer {
                record: old_layer.record,
                name: full,
                visible: old_layer.visible && visible,
                opacity: old_layer.opacity,
                blend: old_layer.blend,
                vector: old_layer.vector,
                clip_base: old_layer.clip_base,
                translucent: old_layer.translucent,
            };
            let ghost prev = self.view().layers;
            proof {
                assert(prev[k as int] == before[k as int]);
                assert(layer.view() == close_group(before, start as int, name@, visible)[k as int]);
            }
            self.layers.set(k, layer);
            proof {
                assert forall|q: int| 0 <= q < self.layers@.len() implies #[trigger] self.view().layers[q] ==
                    if q < k + 1 { close_group(before, start as int, name@, visible)[q] } else { before[q] } by {
                    if q != k {
                        assert(self.view().layers[q] == prev[q]);
                    }
                }
            }
            k += 1;
        }
        assert(self.view().layers =~= close_group(before, start as int, name@, visible));
    }

    /// Plan record `i`, `rec`, of a file of color `mode`. Refused records
    /// fail the import.
    pub fn add(&mut self, i: usize, rec: &LayerRecord<'_>, mode: u16) -> (res: Result<(), String>)
        ensures
            match stack_step(old(self).view(), i as int, rec.view(), mode as int) {
                Ok(st) => res is Ok && final(self).view() == st,
                Err(e) => res matches Err(x) && x@ == e,
            },
    {
        let name = rec.blocks.name.as_str();
        if rec.blocks.group == 3 {
            let n = self.layers.len();
            self.groups.push(n);
            self.clip = None;
            assert(self.view().groups =~= old(self).view().groups.push(n as int));
            return Ok(());
        }
        if rec.blocks.group == 1 || rec.blocks.group == 2 {
            let start = match self.groups.pop() {
                Some(g) => g,
                None => return Err(String::from_str("Unbalanced PSD groups")),
            };
            let pass = rec.blocks.blend.len() == 4 && rec.blocks.blend[0] == 0x70 && rec.blocks.blend[1] == 0x61
                && rec.blocks.blend[2] == 0x73 && rec.blocks.blend[3] == 0x73;
            proof {
                if pass { assert(rec.blocks.blend@ =~= pass_key()); }
            }
            if !pass || rec.opacity != 255 || rec.mask.is_some() || rec.blocks.vector.is_some() || rec.blocks.effects {
                return Err(quoted("Group '", name, "' uses isolated blending, opacity, masks or effects. Import currently preserves pass-through groups at full opacity."));
            }
            self.close(start, name, rec.visible);
            self.clip = None;
            assert(self.view().groups =~= old(self).view().groups.drop_last());
            return Ok(());
        }
        if rec.blocks.effects {
            return Err(quoted("Layer '", name, "' uses Photoshop effects, adjustments, a patterned/gradient fill or a smart object that cannot be preserved yet."));
        }
        let blend = match blend_mode(rec.blocks.blend) {
            Some(b) => b,
            None => {
                let key = decode_utf8_lossy(rec.blocks.blend);
                let mut m = quoted("Layer '", name, "' uses unsupported blend mode '");
                m.append(key.as_str());
                m.append("'.");
                return Err(m);
            },
        };
        let n = self.layers.len();
        if rec.blocks.vector.is_some() || rec.blocks.fill.is_some() {
            if rec.mask.is_some() || rec.clipping {
                return Err(quoted("Vector layer '", name, "' has bitmap masks, clipping, effects or a smart object that cannot be preserved yet."));
            }
            let layer = PlannedLayer {
                record: i, name: String::from_str(name), visible: rec.visible, opacity: rec.opacity, blend,
                vector: true, clip_base: None, translucent: false,
            };
            self.layers.push(layer);
            self.clip = Some(n);
            assert(self.view().layers =~= old(self).view().layers.push(layer.view()));
            return Ok(());
        }
        if !(mode == 0 || mode == 1 || mode == 2 || mode == 8 || mode == 3 || mode == 9 || mode == 4) {
            return Err(String::from_str("Unsupported PSD layer color mode."));
        }
        let mut visible = rec.visible;
        if rec.clipping {
            let c = match self.clip {
                None => return Err(String::from_str("PSD clipping layer has no base")),
                Some(c) => c,
            };
            if c >= n {
                return Err(String::from_str("Invalid clipping base"));
            }
            if self.layers[c].opacity != 255 || self.layers[c].translucent {
                return Err(quoted("Clipping layer '", name, "' has a translucent base. Its clipping group cannot yet be preserved without flattening."));
            }
            visible = visible && self.layers[c].visible;
        }
        let clip_base = if rec.clipping { self.clip } else { None };
        let layer = PlannedLayer {
            record: i, name: String::from_str(name), visible, opacity: rec.opacity, blend,
            vector: false, clip_base, translucent: false,
        };
        self.layers.push(layer);
        if !rec.clipping {
            self.clip = Some(n);
        }
        assert(self.view().layers =~= old(self).view().layers.push(layer.view()));
        Ok(())
    }
}

impl StackPlan {
    /// Record whether the last planned layer is partly transparent.
    fn mark_last(&mut self, translucent: bool)
        requires
            old(self).layers@.len() > 0,
        ensures
            final(self).view() == (StackView {
                layers: old(self).view().layers.update(old(self).view().layers.len() - 1,
                    PlanView { translucent, ..old(self).view().layers[old(self).view().layers.len() - 1] }),
                ..old(self).view()
            }),
    {
        let n = self.layers.len() - 1;
        let old_layer = &self.layers[n];
        let layer = PlannedLayer {
            record: old_layer.record,
            name: old_layer.name.clone(),
            visible: old_layer.visible,
            opacity: old_layer.opacity,
            blend: old_layer.blend,
            vector: old_layer.vector,
            clip_base: old_layer.clip_base,
            translucent,
        };
        self.layers.set(n, layer);
        assert(self.view().layers =~= old(self).view().layers.update(n as int, PlanView { translucent, ..old(self).view().layers[n as int] }));
    }

    /// The planned layers, once every record is planned; groups left open
    /// are refused.
    pub fn finish(self) -> (res: Result<Vec<PlannedLayer>, String>)
        ensures
            self.groups@.len() > 0 ==> (res matches Err(e) && e@ == "Unbalanced PSD groups."@),
            self.groups@.len() == 0 ==> (res matches Ok(v) && v@.map_values(|l: PlannedLayer| l.view()) == self.view().layers),
    {
        if self.groups.len() > 0 {
            return Err(String::from_str("Unbalanced PSD groups."));
        }
        Ok(self.layers)
    }
}

/// The ids of decoded planes.
pub open spec fn plane_ids(planes: Seq<(i16, Vec<u8>)>) -> Seq<int> {
    planes.map_values(|p: (i16, Vec<u8>)| p.0 as int)
}

/// Check that raster record `rec`, whose channels decoded to `planes`, has
/// every color plane of a file of color `mode`, unless it has no pixels.
pub fn complete_raster(rec: &LayerRecord<'_>, planes: &[(i16, Vec<u8>)], mode: u16) -> (res: Result<(), String>)
    requires
        crate::import::psd::layers::layer_size_ok(rec.bounds.spec_width(), rec.bounds.spec_height()),
    ensures
        raster_complete(rec.view(), plane_ids(planes@), mode as int) ==> res is Ok,
        !raster_complete(rec.view(), plane_ids(planes@), mode as int) ==> (res matches Err(e)
            && e@ == incomplete_error(rec.blocks.name@)),
{
    let (w, h) = match rec.bounds.size() {
        Ok(d) => d,
        Err(e) => return Err(e),
    };
    let ghost ids = plane_ids(planes@);
    if w == 0 || h == 0 {
        assert(w * h == 0) by (nonlinear_arith) requires w == 0 || h == 0;
        return Ok(());
    }
    assert(w * h != 0) by (nonlinear_arith) requires w > 0, h > 0;
    let base: i16 = if mode == 4 { 4 } else if mode == 3 || mode == 9 { 3 } else { 1 };
    let mut c: i16 = 0;
    while c < base
        invariant
            0 <= c <= base,
            base == base_channels(mode as int),
            ids == plane_ids(planes@),
            forall|d: int| 0 <= d < c ==> ids.contains(d),
            w * h != 0,
            w == rec.bounds.spec_width(),
            h == rec.bounds.spec_height(),
        decreases base - c,
    {
        let mut found = false;
        let mut j: usize = 0;
        while j < planes.len()
            invariant
                j <= planes@.len(),
                ids == plane_ids(planes@),
                found ==> ids.contains(c as int),
                !found ==> forall|q: int| 0 <= q < j ==> ids[q] != c,
            decreases planes@.len() - j,
        {
            if planes[j].0 == c {
                found = true;
                assert(ids[j as int] == c);
            }
            j += 1;
        }
        if !found {
            assert(!ids.contains(c as int));
            assert(rec.view().bounds.spec_width() * rec.view().bounds.spec_height() != 0);
            assert(!raster_complete(rec.view(), ids, mode as int));
            return Err(quoted("Layer '", rec.blocks.name.as_str(), "' has no complete raster pixels; it must be rasterized in its source app before import."));
        }
        c += 1;
    }
    Ok(())
}

/// `prefix`, `name` and `suffix` joined.
fn quoted(prefix: &str, name: &str, suffix: &str) -> (s: String)
    ensures
        s@ == prefix@ + name@ + suffix@,
{
    let mut s = String::from_str(prefix);
    s.append(name);
    s.append(suffix);
    s
}


/// The position of the last plane of channel `id` among `planes`, or -1.
pub open spec fn plane_index(planes: Seq<(int, Seq<u8>)>, id: int) -> int
    decreases planes.len(),
{
    if planes.len() == 0 {
        -1
    } else if planes.last().0 == id {
        planes.len() - 1
    } else {
        plane_index(planes.drop_last(), id)
    }
}

/// The largest sample of `depth` bits.
pub open spec fn sample_max(depth: int) -> int {
    if depth == 1 { 1 } else if depth == 8 { 255 } else { 65535 }
}

/// Sample `i` of a plane `w` samples wide of `depth` bits (1, 8 or 16),
/// row by row, each row padded to whole bytes; a bitmap sample is 1 for a
/// clear bit. Samples past the plane's data read as 0.
pub open spec fn plane_sample(plane: Seq<u8>, w: int, depth: int, i: int) -> int {
    let stride = (w * depth + 7) / 8;
    let row = i / w;
    let x = i % w;
    if depth == 1 {
        let p = row * stride + x / 8;
        if 0 <= p < plane.len() {
            if (plane[p] >> ((7 - x % 8) as u8)) & 1u8 == 0u8 { 1 } else { 0 }
        } else {
            0
        }
    } else if depth == 8 {
        let p = row * stride + x;
        if 0 <= p < plane.len() { plane[p] as int } else { 0 }
    } else {
        let p = row * stride + 2 * x;
        if 0 <= p && p + 1 < plane.len() { plane[p] as int * 256 + plane[p + 1] as int } else { 0 }
    }
}

/// Where pixel `i` of record `rec` falls in its mask's rectangle, if in it.
pub open spec fn mask_position(rec: RecordView, m: Mask, i: int) -> Option<int> {
    let w = rec.bounds.spec_width();
    let x = rec.bounds.left + i % w - m.bounds.left;
    let y = rec.bounds.top + i / w - m.bounds.top;
    let mw = m.bounds.spec_width();
    if 0 <= x < mw && 0 <= y < m.bounds.spec_height() { Some(y * mw + x) } else { None }
}

/// The mask coverage of pixel `i` of record `rec`, as a fraction: the mask
/// sample inside the mask's rectangle, its background outside, inverted
/// when the mask says so.
pub open spec fn mask_coverage(planes: Seq<(int, Seq<u8>)>, rec: RecordView, m: Mask, depth: int, i: int) -> (int, int) {
    let (n, d) = match mask_position(rec, m, i) {
        Some(j) => {
            let k = plane_index(planes, -2);
            (if k >= 0 { plane_sample(planes[k].1, m.bounds.spec_width(), depth, j) } else { 0 }, sample_max(depth))
        },
        None => (m.background as int, 255int),
    };
    if m.flags & 4 != 0 { (d - n, d) } else { (n, d) }
}

/// Whether pixel `i` of record `rec`, whose channels decoded to `planes`,
/// ends partly transparent: its alpha sample, the fill opacity and an
/// enabled mask's coverage (weighed by its density) multiply to strictly
/// between 0 and 1.
pub open spec fn pixel_partial(planes: Seq<(int, Seq<u8>)>, rec: RecordView, depth: int, i: int) -> bool {
    let k = plane_index(planes, -1);
    let amax = sample_max(depth);
    let a = if k >= 0 { plane_sample(planes[k].1, rec.bounds.spec_width(), depth, i) } else { amax };
    let f = rec.blocks.fill_opacity;
    let (m_pos, m_full) = match rec.mask {
        Some(m) => if m.flags & 2 == 0 {
            let (n, d) = mask_coverage(planes, rec, m, depth, i);
            (!(m.density == 255 && n == 0), m.density == 0 || n == d)
        } else {
            (true, true)
        },
        None => (true, true),
    };
    a > 0 && f > 0 && m_pos && (a < amax || f < 255 || !m_full)
}

/// Whether some pixel of raster record `rec` is partly transparent, for
/// samples of 1, 8 or 16 bits; floating-point samples are not judged here.
pub open spec fn layer_translucent(planes: Seq<(int, Seq<u8>)>, rec: RecordView, depth: int) -> bool {
    &&& (depth == 1 || depth == 8 || depth == 16)
    &&& exists|i: int| 0 <= i < rec.bounds.spec_width() * rec.bounds.spec_height() && #[trigger] pixel_partial(planes, rec, depth, i)
}

/// Whether record `rec` has an enabled mask covering some of its pixels
/// whose mask plane is missing.
pub open spec fn mask_pixels_missing(planes: Seq<(int, Seq<u8>)>, rec: RecordView) -> bool {
    match rec.mask {
        Some(m) => m.flags & 2 == 0 && plane_index(planes, -2) < 0
            && exists|i: int| 0 <= i < rec.bounds.spec_width() * rec.bounds.spec_height() && #[trigger] mask_position(rec, m, i) is Some,
        None => false,
    }
}


/// The position of the last plane of channel `id`.
fn plane_position(planes: &Vec<(i16, Vec<u8>)>, id: i16) -> (k: Option<usize>)
    ensures
        match k {
            Some(j) => j as int == plane_index(plane_views(planes@), id as int) && j < planes@.len(),
            None => plane_index(plane_views(planes@), id as int) < 0,
        },
{
    let mut n = planes.len();
    assert(plane_views(planes@).take(n as int) =~= plane_views(planes@));
    while n > 0
        invariant
            n <= planes@.len(),
            plane_index(plane_views(planes@), id as int) == plane_index(plane_views(planes@).take(n as int), id as int),
        decreases n,
    {
        assert(plane_views(planes@).take(n as int).drop_last() =~= plane_views(planes@).take(n - 1));
        if planes[n - 1].0 == id {
            return Some(n - 1);
        }
        n -= 1;
    }
    None
}

/// Sample `i` of a plane `w` samples wide of `depth` bits.
#[verifier::spinoff_prover]
fn sample_at(plane: &[u8], w: u64, depth: u16, i: u128) -> (v: u32)
    requires
        w > 0,
        depth == 1 || depth == 8 || depth == 16,
        i < 0x1_0000_0000_0000_0000_0000_0000,
    ensures
        v as int == plane_sample(plane@, w as int, depth as int, i as int),
        v as int <= sample_max(depth as int),
{
    let w2 = w as u128;
    assert(w2 * depth as u128 <= 0xffff_ffff_ffff_ffff * 16) by (nonlinear_arith)
        requires w2 <= 0xffff_ffff_ffff_ffff, depth <= 16;
    let stride: u128 = (w2 * depth as u128 + 7) / 8;
    let row: u128 = i / w2;
    let x: u128 = i % w2;
    proof {
        assert(stride <= 3 * w2) by (nonlinear_arith)
            requires stride == (w2 * depth + 7) / 8, depth <= 16, w2 >= 1;
        assert(row * w2 <= i) by (nonlinear_arith)
            requires row == i / w2, w2 >= 1;
        assert(row * stride <= 3 * i) by (nonlinear_arith)
            requires row * w2 <= i, stride <= 3 * w2, row >= 0, stride >= 0;
        assert(x < w2) by (nonlinear_arith) requires x == i % w2, w2 >= 1;
    }
    let len = plane.len() as u128;
    if depth == 1 {
        let p = row * stride + x / 8;
        if p < len {
            let b = plane[p as usize];
            let s = (7 - x % 8) as u8;
            if (b >> s) & 1u8 == 0u8 { 1 } else { 0 }
        } else {
            0
        }
    } else if depth == 8 {
        let p = row * stride + x;
        if p < len { plane[p as usize] as u32 } else { 0 }
    } else {
        let p = row * stride + 2 * x;
        if p + 1 < len { plane[p as usize] as u32 * 256 + plane[(p + 1) as usize] as u32 } else { 0 }
    }
}

/// Where pixel `i` of record `rec` falls in its mask `m`'s rectangle.
fn mask_position_at(rec: &LayerRecord<'_>, m: Mask, w: usize, i: usize) -> (r: Option<u128>)
    requires
        w == rec.bounds.spec_width(),
        w > 0,
        w * 16 <= isize::MAX,
        i * 16 <= isize::MAX,
    ensures
        match r {
            Some(j) => mask_position(rec.view(), m, i as int) == Some(j as int) && j < 0x1_0000_0000_0000_0000_0000_0000,
            None => mask_position(rec.view(), m, i as int) is None,
        },
{
    proof {
        assert(i / w <= i) by (nonlinear_arith) requires w >= 1;
        assert(i % w < w) by (nonlinear_arith) requires w >= 1;
    }
    let x = rec.bounds.left as i64 + (i % w) as i64 - m.bounds.left as i64;
    let y = rec.bounds.top as i64 + (i / w) as i64 - m.bounds.top as i64;
    let mw = m.bounds.right as i64 - m.bounds.left as i64;
    let mh = m.bounds.bottom as i64 - m.bounds.top as i64;
    if 0 <= x && x < mw && 0 <= y && y < mh {
        proof {
            assert(y * mw + x < 0x1_0000_0000_0000_0000_0000_0000) by (nonlinear_arith)
                requires 0 <= x < mw, 0 <= y < mh, mw < 0x2_0000_0000, mh < 0x2_0000_0000;
        }
        Some(y as u128 * mw as u128 + x as u128)
    } else {
        None
    }
}

/// Whether pixel `i` of raster record `rec` ends partly transparent.
fn partial_at(planes: &Vec<(i16, Vec<u8>)>, rec: &LayerRecord<'_>, depth: u16, w: usize, alpha: Option<usize>, cover: Option<usize>, i: usize) -> (b: bool)
    requires
        w == rec.bounds.spec_width(),
        w > 0,
        w * 16 <= isize::MAX,
        i * 16 <= isize::MAX,
        depth == 1 || depth == 8 || depth == 16,
        match alpha {
            Some(j) => j as int == plane_index(plane_views(planes@), -1) && j < planes@.len(),
            None => plane_index(plane_views(planes@), -1) < 0,
        },
        match cover {
            Some(j) => j as int == plane_index(plane_views(planes@), -2) && j < planes@.len(),
            None => plane_index(plane_views(planes@), -2) < 0,
        },
    ensures
        b == pixel_partial(plane_views(planes@), rec.view(), depth as int, i as int),
{
    let amax: u32 = if depth == 1 { 1 } else if depth == 8 { 255 } else { 65535 };
    let a: u32 = match alpha {
        Some(j) => sample_at(planes[j].1.as_slice(), w as u64, depth, i as u128),
        None => amax,
    };
    let f = rec.blocks.fill_opacity;
    let mut m_pos = true;
    let mut m_full = true;
    if let Some(m) = rec.mask {
        if m.flags & 2 == 0 {
            let (n, d): (u32, u32) = match mask_position_at(rec, m, w, i) {
                Some(j) => {
                    let s = match cover {
                        Some(k) => {
                            let mw = (m.bounds.right as i64 - m.bounds.left as i64) as u64;
                            proof {
                                assert(mw > 0);
                            }
                            sample_at(planes[k].1.as_slice(), mw, depth, j)
                        },
                        None => 0,
                    };
                    (s, amax)
                },
                None => (m.background as u32, 255),
            };
            let (n, d) = if m.flags & 4 != 0 { (d - n, d) } else { (n, d) };
            m_pos = !(m.density == 255 && n == 0);
            m_full = m.density == 0 || n == d;
        }
    }
    a > 0 && f > 0 && m_pos && (a < amax || f < 255 || !m_full)
}

/// Whether a raster record's enabled mask lacks its plane where it covers
/// pixels, and else whether some pixel is partly transparent.
fn raster_alpha(planes: &Vec<(i16, Vec<u8>)>, rec: &LayerRecord<'_>, depth: u16) -> (res: Result<bool, String>)
    requires
        layer_size_ok(rec.bounds.spec_width(), rec.bounds.spec_height()),
    ensures
        mask_pixels_missing(plane_views(planes@), rec.view()) ==> (res matches Err(e) && e@ == "PSD mask pixels are missing"@),
        !mask_pixels_missing(plane_views(planes@), rec.view()) ==> res == Ok::<bool, String>(layer_translucent(plane_views(planes@), rec.view(), depth as int)),
{
    let (w, h) = match rec.bounds.size() {
        Ok(d) => d,
        Err(e) => return Err(e),
    };
    let n = w * h;
    if n == 0 {
        proof {
            assert(w * h == 0);
        }
        return Ok(false);
    }
    proof {
        assert(w > 0 && h > 0) by (nonlinear_arith) requires w * h != 0, w >= 0, h >= 0;
        assert(w * 16 <= w * h * 16) by (nonlinear_arith) requires h >= 1, w >= 0;
    }
    let alpha = plane_position(planes, -1);
    let cover = plane_position(planes, -2);
    let ghost pv = plane_views(planes@);
    let ghost rv = rec.view();
    if let Some(m) = rec.mask {
        if m.flags & 2 == 0 && cover.is_none() {
            let mut i: usize = 0;
            while i < n
                invariant
                    i <= n,
                    n == w * h,
                    w * h * 16 <= isize::MAX,
                    pv == plane_views(planes@),
                    cover is None,
                    plane_index(pv, -2) < 0,
                    m.flags & 2 == 0,
                    w == rv.bounds.spec_width(),
                    h == rv.bounds.spec_height(),
                    w > 0,
                    w * 16 <= isize::MAX,
                    rv == rec.view(),
                    rec.mask == Some(m),
                    forall|q: int| 0 <= q < i ==> #[trigger] mask_position(rv, m, q) is None,
                decreases n - i,
            {
                proof {
                    assert(i * 16 <= w * h * 16) by (nonlinear_arith) requires i < w * h;
                }
                if mask_position_at(rec, m, w, i).is_some() {
                    assert(mask_position(rv, m, i as int) is Some);
                    assert((i as int) < rv.bounds.spec_width() * rv.bounds.spec_height());
                    assert(mask_pixels_missing(pv, rv));
                    return Err(String::from_str("PSD mask pixels are missing"));
                }
                i += 1;
            }
        }
    }
    if !(depth == 1 || depth == 8 || depth == 16) {
        return Ok(false);
    }
    let mut found = false;
    let mut i: usize = 0;
    while i < n
        invariant
            i <= n,
            n == w * h,
            w * h * 16 <= isize::MAX,
            w == rv.bounds.spec_width(),
            h == rv.bounds.spec_height(),
            w > 0,
            w * 16 <= isize::MAX,
            rv == rec.view(),
            pv == plane_views(planes@),
            depth == 1 || depth == 8 || depth == 16,
            match alpha {
                Some(j) => j as int == plane_index(pv, -1) && j < planes@.len(),
                None => plane_index(pv, -1) < 0,
            },
            match cover {
                Some(j) => j as int == plane_index(pv, -2) && j < planes@.len(),
                None => plane_index(pv, -2) < 0,
            },
            found == exists|q: int| 0 <= q < i && #[trigger] pixel_partial(pv, rv, depth as int, q),
        decreases n - i,
    {
        proof {
            assert(i * 16 <= w * h * 16) by (nonlinear_arith) requires i < w * h;
        }
        if partial_at(planes, rec, depth, w, alpha, cover, i) {
            found = true;
        }
        i += 1;
    }
    Ok(found)
}

/// Why the vector layer of record `rec` is refused, if it is: its vector
/// mask, then its fill and stroke styles, must parse.
pub open spec fn shape_error(rec: RecordView) -> Option<Seq<char>> {
    match rec.blocks.vector {
        Some(m) if psd_vector_mask(m) is Err => Some(psd_vector_mask(m)->Err_0),
        _ => match w_shape_paint(rec.blocks.fill, rec.blocks.style) {
            Err(e) => Some(e),
            Ok(_) => None,
        },
    }
}

/// The shape of vector record `rec` parsed, or why it is refused.
fn check_shape(rec: &LayerRecord<'_>) -> (res: Result<(), String>)
    ensures
        match shape_error(rec.view()) {
            None => res is Ok,
            Some(e) => res matches Err(x) && x@ == "Vector layer '"@ + rec.view().blocks.name + "': "@ + e,
        },
{
    let name = rec.blocks.name.as_str();
    if let Some(m) = rec.blocks.vector {
        match vector_mask(m) {
            Ok(_) => {},
            Err(e) => {
                let mut s = quoted("Vector layer '", name, "': ");
                s.append(e.as_str());
                return Err(s);
            },
        }
    }
    match shape_paint(rec.blocks.fill, rec.blocks.style) {
        Ok(_) => Ok(()),
        Err(e) => {
            let mut s = quoted("Vector layer '", name, "': ");
            s.append(e.as_str());
            Err(s)
        },
    }
}

/// Record `rec`, the `k`-th, planned from state `st`, its channel data
/// starting at `pos` of the layer information `s`: its size is checked,
/// its channels decoded, it is planned, and a planned raster layer must
/// have all its color planes. The new state and where the next channel
/// data starts.
pub open spec fn open_step(s: Seq<u8>, rec: RecordView, k: int, pos: int, st: StackView, mode: int, depth: int)
    -> Result<(StackView, int), Seq<char>>
{
    if !layer_size_ok(rec.bounds.spec_width(), rec.bounds.spec_height()) {
        Err("Invalid or overflowing PSD layer dimensions."@)
    } else {
        match record_planes(s, pos, rec.channels, rec, mode, depth, seq![]) {
            Err(e) => Err(e),
            Ok((planes, next)) => match stack_step(st, k, rec, mode) {
                Err(e) => Err(e),
                Ok(st2) => if st2.layers.len() > 0 && st2.layers.last().record == k && !st2.layers.last().vector
                    && !raster_complete(rec, planes.map_values(|p: (int, Seq<u8>)| p.0), mode) {
                    Err(incomplete_error(rec.blocks.name))
                } else if st2.layers.len() > 0 && st2.layers.last().record == k && !st2.layers.last().vector {
                    if mask_pixels_missing(planes, rec) {
                        Err("PSD mask pixels are missing"@)
                    } else {
                        let n = st2.layers.len() - 1;
                        Ok((StackView {
                            layers: st2.layers.update(n, PlanView { translucent: layer_translucent(planes, rec, depth), ..st2.layers[n] }),
                            ..st2
                        }, next))
                    }
                } else if st2.layers.len() > 0 && st2.layers.last().record == k && st2.layers.last().vector {
                    match shape_error(rec) {
                        Some(e) => Err("Vector layer '"@ + rec.blocks.name + "': "@ + e),
                        None => Ok((st2, next)),
                    }
                } else {
                    Ok((st2, next))
                },
            },
        }
    }
}

/// The planner's state after the records of `recs` from the `k`-th on are
/// planned from state `st`, their channel data starting at `pos` of `s`.
pub open spec fn open_plan(s: Seq<u8>, recs: Seq<RecordView>, k: int, pos: int, st: StackView, mode: int, depth: int)
    -> Result<StackView, Seq<char>>
    decreases recs.len() - k,
{
    if k < 0 || k >= recs.len() {
        Ok(st)
    } else {
        match open_step(s, recs[k], k, pos, st, mode, depth) {
            Err(e) => Err(e),
            Ok((st2, next)) => open_plan(s, recs, k + 1, next, st2, mode, depth),
        }
    }
}

/// The layers the layer information `info` of a file of color `mode` and
/// sample `depth` opens as: `None` when it holds no layer records, so the
/// merged image is the drawing; else the planned layers, or why they are
/// refused.
pub open spec fn opened_layers(info: Seq<u8>, mode: int, depth: int) -> Result<Option<Seq<PlanView>>, Seq<char>> {
    if info.len() < 2 || (info[0] == 0 && info[1] == 0) {
        Ok(None)
    } else {
        match layer_info_records(info) {
            Err(e) => Err(e),
            Ok((recs, next)) => if depth < 1 || depth > 32 {
                Err("Unsupported PSD sample depth."@)
            } else {
                match open_plan(info, recs, 0, next, StackView { layers: seq![], groups: seq![], clip: None }, mode, depth) {
                    Err(e) => Err(e),
                    Ok(st) => if st.groups.len() > 0 { Err("Unbalanced PSD groups."@) } else { Ok(Some(st.layers)) },
                }
            },
        }
    }
}

/// What a PSD opens as.
#[derive(Debug)]
pub enum OpenedLayers {
    /// No layer records: the merged image, as one background layer.
    Merged,
    /// Layer records that plan no drawing layer: one empty layer.
    Empty,
    /// The planned drawing layers, bottom first.
    Planned(Vec<PlannedLayer>),
}

/// Plan the `i`-th record `record`, reading its channel data at `r`.
fn plan_record(r: &mut Cursor<'_>, plan: &mut StackPlan, i: usize, record: &LayerRecord<'_>, mode: u16, depth: u16)
    -> (res: Result<(), String>)
    requires
        old(r).wf(),
        1 <= depth <= 32,
    ensures
        final(r).wf(),
        final(r).data@ == old(r).data@,
        match open_step(old(r).data@, record.view(), i as int, old(r).pos as int, old(plan).view(), mode as int, depth as int) {
            Ok((st, next)) => res is Ok && final(plan).view() == st && final(r).pos == next,
            Err(e) => res matches Err(x) && x@ == e,
        },
{
    match record.bounds.size() {
        Ok(_) => {},
        Err(e) => return Err(e),
    }
    let planes = read_planes(r, record, mode, depth)?;
    plan.add(i, record, mode)?;
    proof {
        assert(plane_ids(planes@) =~= plane_views(planes@).map_values(|p: (int, Seq<u8>)| p.0));
    }
    let n = plan.layers.len();
    if n > 0 && plan.layers[n - 1].record == i && !plan.layers[n - 1].vector {
        complete_raster(record, planes.as_slice(), mode)?;
        let translucent = raster_alpha(&planes, record, depth)?;
        plan.mark_last(translucent);
    } else if n > 0 && plan.layers[n - 1].record == i && plan.layers[n - 1].vector {
        check_shape(record)?;
    }
    Ok(())
}

/// Plan the drawing layers of the layer information `info` of a file of
/// color `mode` and sample `depth`, reading and checking each record's
/// channel data.
pub fn open_layers(info: &[u8], mode: u16, depth: u16) -> (res: Result<OpenedLayers, String>)
    ensures
        match opened_layers(info@, mode as int, depth as int) {
            Err(e) => res matches Err(x) && x@ == e,
            Ok(None) => res matches Ok(OpenedLayers::Merged),
            Ok(Some(ls)) => if ls.len() == 0 {
                res matches Ok(OpenedLayers::Empty)
            } else {
                res matches Ok(OpenedLayers::Planned(v)) && v@.map_values(|l: PlannedLayer| l.view()) == ls
            },
        },
{
    if info.len() < 2 || (info[0] == 0 && info[1] == 0) {
        return Ok(OpenedLayers::Merged);
    }
    let mut r = Cursor::new(info);
    let records = read_records(&mut r)?;
    let ghost s = info@;
    let ghost recs = record_views(records@);
    if depth < 1 || depth > 32 {
        return Err(String::from_str("Unsupported PSD sample depth."));
    }
    let mut plan = StackPlan::new();
    let ghost start = r.pos as int;
    let ghost empty = StackView { layers: seq![], groups: seq![], clip: None };
    assert(layer_info_records(s) == Ok::<(Seq<RecordView>, int), Seq<char>>((recs, start)));
    let mut i: usize = 0;
    while i < records.len()
        invariant
            r.wf(),
            r.data@ == s,
            layer_info_records(s) == Ok::<(Seq<RecordView>, int), Seq<char>>((recs, start)),
            empty == (StackView { layers: seq![], groups: seq![], clip: None }),
            info@.len() >= 2 && !(info@[0] == 0 && info@[1] == 0),
            s == info@,
            1 <= depth <= 32,
            recs == record_views(records@),
            i <= records@.len(),
            open_plan(s, recs, 0, start, empty, mode as int, depth as int)
                == open_plan(s, recs, i as int, r.pos as int, plan.view(), mode as int, depth as int),
        decreases records@.len() - i,
    {
        assert(recs[i as int] == records@[i as int].view());
        let ghost pos = r.pos as int;
        let ghost before = plan.view();
        match plan_record(&mut r, &mut plan, i, &records[i], mode, depth) {
            Ok(()) => {},
            Err(e) => {
                assert(open_plan(s, recs, i as int, pos, before, mode as int, depth as int) == Err::<StackView, Seq<char>>(e@));
                return Err(e);
            },
        }
        i += 1;
    }
    let layers = plan.finish()?;
    if layers.len() == 0 {
        return Ok(OpenedLayers::Empty);
    }
    Ok(OpenedLayers::Planned(layers))
}

} // verus!
