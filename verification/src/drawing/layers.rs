//! The layer stack of a drawing: which layers exist, in which order, which
//! one is active, and their names, visibility, opacity and blend modes.
//! Layer material lives with the application; when the active layer
//! changes, the application moves material between the dense surface and the
//! sparse per-layer store.
use vstd::prelude::*;
use crate::drawing::document::{BlendMode, DirtyRect, LayerSelection};
use crate::text::{push_decimal, decimal, str_chars, string_from_chars, trim, trimmed};

verus! {

/// A drawing layer's settings.
#[derive(Debug, Clone)]
pub struct LayerInfo {
    pub id: u64,
    pub name: String,
    pub visible: bool,
    /// Global layer alpha, as PSD's 0..255 opacity field.
    pub opacity: u8,
    pub blend_mode: BlendMode,
}

/// The mathematical content of a [`LayerInfo`].
pub struct LayerView {
    pub id: u64,
    pub name: Seq<char>,
    pub visible: bool,
    pub opacity: u8,
    pub blend_mode: BlendMode,
}

impl LayerInfo {
    pub open spec fn view(&self) -> LayerView {
        LayerView { id: self.id, name: self.name@, visible: self.visible, opacity: self.opacity, blend_mode: self.blend_mode }
    }
}

/// The views of `layers`.
pub open spec fn layer_views(layers: Seq<LayerInfo>) -> Seq<LayerView> {
    layers.map_values(|l: LayerInfo| l.view())
}

/// The ids of `layers`, bottom to top.
pub open spec fn layer_ids(layers: Seq<LayerView>) -> Seq<u64> {
    layers.map_values(|l: LayerView| l.id)
}

/// Whether no two layers share an id.
pub open spec fn distinct_ids(layers: Seq<LayerView>) -> bool {
    forall|i: int, j: int| 0 <= i < j < layers.len() ==> (#[trigger] layers[i]).id != (#[trigger] layers[j]).id
}

/// The name of the layer with id `id`: "Layer" and the id.
pub open spec fn default_layer_name(id: u64) -> Seq<char> {
    "Layer "@ + decimal(id as nat)
}

/// Pending redraw: the region to redraw, if any, and a counter of changes.
#[derive(Debug, Clone, Copy, PartialEq, Eq, Structural)]
pub struct Invalidation {
    pub dirty: Option<DirtyRect>,
    pub revision: u64,
    pub width: usize,
    pub height: usize,
}

/// The counter after one more change; it wraps.
pub open spec fn next_revision(r: u64) -> u64 {
    if r == u64::MAX { 0 } else { (r + 1) as u64 }
}

impl Invalidation {
    pub open spec fn new_spec(width: usize, height: usize) -> Self {
        Invalidation { dirty: Some(DirtyRect { min_x: 0, min_y: 0, max_x: width, max_y: height }), revision: 1, width, height }
    }

    /// A whole `width` × `height` canvas to draw, at revision one.
    pub fn new(width: usize, height: usize) -> (v: Self)
        ensures
            v == Invalidation::new_spec(width, height),
    {
        Invalidation { dirty: Some(DirtyRect::full(width, height)), revision: 1, width, height }
    }

    /// Add `rect` to the region to redraw; an empty rectangle changes nothing.
    pub fn mark_dirty(&mut self, rect: DirtyRect)
        ensures
            rect.spec_is_empty() ==> *final(self) == *old(self),
            !rect.spec_is_empty() ==> *final(self) == (Invalidation {
                dirty: Some(match old(self).dirty { Some(d) => d.spec_union(rect), None => rect }),
                revision: next_revision(old(self).revision),
                ..*old(self)
            }),
    {
        if rect.is_empty() {
            return;
        }
        self.dirty = Some(match self.dirty {
            Some(existing) => existing.union(rect),
            None => rect,
        });
        self.revision = if self.revision == u64::MAX { 0 } else { self.revision + 1 };
    }

    /// Take the region to redraw, leaving none.
    pub fn take_dirty(&mut self) -> (d: Option<DirtyRect>)
        ensures
            d == old(self).dirty,
            *final(self) == (Invalidation { dirty: None, ..*old(self) }),
    {
        let d = self.dirty;
        self.dirty = None;
        d
    }

    /// The state after a full redraw is queued.
    pub open spec fn all_marked(self) -> Self {
        Invalidation {
            dirty: Some(DirtyRect { min_x: 0, min_y: 0, max_x: self.width, max_y: self.height }),
            revision: next_revision(self.revision),
            ..self
        }
    }

    /// Redraw the whole canvas; this supersedes queued regions.
    pub fn mark_all_dirty(&mut self)
        ensures
            *final(self) == old(self).all_marked(),
    {
        self.dirty = Some(DirtyRect::full(self.width, self.height));
        self.revision = if self.revision == u64::MAX { 0 } else { self.revision + 1 };
    }
}

/// Marking regions and then taking the region to redraw gives the union of
/// the non-empty regions marked, whatever their order.
pub proof fn lemma_marks_accumulate(d: Option<DirtyRect>, a: DirtyRect, b: DirtyRect)
    requires
        !a.spec_is_empty(),
        !b.spec_is_empty(),
    ensures
        ({
            let after_a = match d { Some(x) => x.spec_union(a), None => a };
            let after_ab = after_a.spec_union(b);
            let after_b = match d { Some(x) => x.spec_union(b), None => b };
            let after_ba = after_b.spec_union(a);
            after_ab == after_ba
        }),
{
    crate::drawing::document::lemma_union_algebra(a, b, a);
    match d {
        Some(x) => {
            crate::drawing::document::lemma_union_algebra(x, a, b);
            crate::drawing::document::lemma_union_algebra(x, b, a);
            crate::drawing::document::lemma_union_algebra(a, b, a);
            assert(x.spec_union(a).spec_union(b) == x.spec_union(a.spec_union(b)));
            assert(x.spec_union(b).spec_union(a) == x.spec_union(b.spec_union(a)));
        },
        None => {},
    }
}


/// Whether some layer has id `id`.
pub open spec fn has_id(layers: Seq<LayerView>, id: u64) -> bool {
    exists|i: int| 0 <= i < layers.len() && (#[trigger] layers[i]).id == id
}

/// Whether `i` is the first layer with id `id`.
pub open spec fn first_with_id(layers: Seq<LayerView>, id: u64, i: int) -> bool {
    &&& 0 <= i < layers.len()
    &&& layers[i].id == id
    &&& forall|q: int| 0 <= q < i ==> (#[trigger] layers[q]).id != id
}

/// The settings of a new layer with id `id`.
pub open spec fn new_layer(id: u64) -> LayerView {
    LayerView { id, name: default_layer_name(id), visible: true, opacity: 255, blend_mode: BlendMode::Multiply }
}

/// The drawing's layers, bottom to top, and the active one.
pub struct LayerStack {
    layers: Vec<LayerInfo>,
    active: usize,
    next_id: u64,
    selection: LayerSelection,
    invalidation: Invalidation,
}

/// The first position of `id` among `layers`, if any.
fn position_of(layers: &Vec<LayerInfo>, id: u64) -> (p: Option<usize>)
    ensures
        p is None <==> !has_id(layer_views(layers@), id),
        p matches Some(i) ==> first_with_id(layer_views(layers@), id, i as int),
{
    let ghost v = layer_views(layers@);
    let mut i: usize = 0;
    while i < layers.len()
        invariant
            i <= layers@.len(),
            v == layer_views(layers@),
            forall|q: int| 0 <= q < i ==> (#[trigger] v[q]).id != id,
        decreases layers@.len() - i,
    {
        if layers[i].id == id {
            assert(v[i as int].id == id);
            return Some(i);
        }
        i += 1;
    }
    assert(!has_id(v, id)) by {
        if has_id(v, id) {
            let k = choose|k: int| 0 <= k < v.len() && (#[trigger] v[k]).id == id;
            assert(v[k].id != id);
        }
    }
    None
}

impl LayerStack {
    pub closed spec fn spec_layers(&self) -> Seq<LayerView> {
        layer_views(self.layers@)
    }

    pub closed spec fn spec_active(&self) -> int {
        self.active as int
    }

    pub closed spec fn spec_next_id(&self) -> u64 {
        self.next_id
    }

    pub closed spec fn spec_invalidation(&self) -> Invalidation {
        self.invalidation
    }

    /// The ids picked in the layer panel.
    pub closed spec fn spec_selected_ids(&self) -> Seq<u64> {
        self.selection.ids@
    }

    /// The id a range pick starts from.
    pub closed spec fn spec_anchor(&self) -> Option<u64> {
        self.selection.anchor
    }

    /// The positions of the selected layers, bottom first.
    pub open spec fn spec_selected(&self) -> Seq<int> {
        selected_positions(self.spec_layers(), self.spec_selected_ids(), self.spec_active())
    }

    /// Well formed: at least one layer, and the active one among them.
    pub open spec fn wf(&self) -> bool {
        &&& self.spec_layers().len() >= 1
        &&& 0 <= self.spec_active() < self.spec_layers().len()
    }

    /// The layers of a new `width` × `height` drawing: one active layer.
    pub fn new(width: usize, height: usize) -> (s: Self)
        ensures
            s.wf(),
            s.spec_layers() == seq![new_layer(1)],
            s.spec_active() == 0,
            s.spec_next_id() == 2,
            s.spec_invalidation() == Invalidation::new_spec(width, height),
    {
        let mut name = str_chars("Layer ");
        push_decimal(&mut name, 1);
        let first = LayerInfo {
            id: 1,
            name: string_from_chars(name.as_slice()),
            visible: true,
            opacity: 255,
            blend_mode: BlendMode::Multiply,
        };
        let s = LayerStack {
            layers: vec![first],
            active: 0,
            next_id: 2,
            selection: LayerSelection { ids: Vec::new(), anchor: None, multiple: false },
            invalidation: Invalidation::new(width, height),
        };
        assert(s.spec_layers() =~= seq![new_layer(1)]);
        s
    }

    /// The layers, bottom to top.
    pub fn layers(&self) -> (l: &[LayerInfo])
        ensures
            layer_views(l@) == self.spec_layers(),
    {
        self.layers.as_slice()
    }

    pub fn layer_count(&self) -> (n: usize)
        ensures
            n == self.spec_layers().len(),
    {
        self.layers.len()
    }

    pub fn active_layer_index(&self) -> (i: usize)
        ensures
            i == self.spec_active(),
    {
        self.active
    }

    pub fn active_layer_id(&self) -> (id: u64)
        requires
            self.wf(),
        ensures
            id == self.spec_layers()[self.spec_active()].id,
    {
        self.layers[self.active].id
    }

    pub fn active_layer_name(&self) -> (name: &str)
        requires
            self.wf(),
        ensures
            name@ == self.spec_layers()[self.spec_active()].name,
    {
        self.layers[self.active].name.as_str()
    }

    /// The layers picked in the layer panel.
    pub fn layer_selection(&self) -> (s: &LayerSelection)
        ensures
            s.ids@ == self.spec_selected_ids(),
            s.anchor == self.spec_anchor(),
    {
        &self.selection
    }

    /// The pending redraw.
    pub fn invalidation(&self) -> (v: Invalidation)
        ensures
            v == self.spec_invalidation(),
    {
        self.invalidation
    }

    /// Queue `rect` for redrawing.
    pub fn mark_dirty(&mut self, rect: DirtyRect)
        ensures
            final(self).spec_layers() == old(self).spec_layers(),
            final(self).spec_active() == old(self).spec_active(),
            final(self).spec_next_id() == old(self).spec_next_id(),
            final(self).spec_selected_ids() == old(self).spec_selected_ids(),
            final(self).spec_anchor() == old(self).spec_anchor(),
            rect.spec_is_empty() ==> final(self).spec_invalidation() == old(self).spec_invalidation(),
            !rect.spec_is_empty() ==> final(self).spec_invalidation() == (Invalidation {
                dirty: Some(match old(self).spec_invalidation().dirty { Some(d) => d.spec_union(rect), None => rect }),
                revision: next_revision(old(self).spec_invalidation().revision),
                ..old(self).spec_invalidation()
            }),
    {
        self.invalidation.mark_dirty(rect);
    }

    /// Take the region to redraw.
    pub fn take_dirty(&mut self) -> (d: Option<DirtyRect>)
        ensures
            d == old(self).spec_invalidation().dirty,
            final(self).spec_invalidation() == (Invalidation { dirty: None, ..old(self).spec_invalidation() }),
            final(self).spec_layers() == old(self).spec_layers(),
            final(self).spec_active() == old(self).spec_active(),
            final(self).spec_next_id() == old(self).spec_next_id(),
            final(self).spec_selected_ids() == old(self).spec_selected_ids(),
            final(self).spec_anchor() == old(self).spec_anchor(),
    {
        self.invalidation.take_dirty()
    }

    /// Whether the active layer can merge into the visible layer below it.
    pub fn can_merge_down(&self) -> (b: bool)
        requires
            self.wf(),
        ensures
            b == (self.spec_active() > 0 && self.spec_layers()[self.spec_active()].visible
                && self.spec_layers()[self.spec_active() - 1].visible),
    {
        self.active > 0 && self.layers[self.active].visible && self.layers[self.active - 1].visible
    }

    /// Make layer `index` active; `false` when it is out of range or already
    /// active.
    pub fn activate_layer(&mut self, index: usize) -> (changed: bool)
        requires
            old(self).wf(),
        ensures
            final(self).wf(),
            final(self).spec_layers() == old(self).spec_layers(),
            final(self).spec_next_id() == old(self).spec_next_id(),
            final(self).spec_selected_ids() == old(self).spec_selected_ids(),
            final(self).spec_anchor() == old(self).spec_anchor(),
            changed == (index < old(self).spec_layers().len() && index != old(self).spec_active()),
            changed ==> final(self).spec_active() == index && final(self).spec_invalidation() == old(self).spec_invalidation().all_marked(),
            !changed ==> final(self).spec_active() == old(self).spec_active() && final(self).spec_invalidation() == old(self).spec_invalidation(),
    {
        if index >= self.layers.len() || index == self.active {
            return false;
        }
        self.active = index;
        self.invalidation.mark_all_dirty();
        true
    }

    /// Make the layer with id `id` active.
    pub fn activate_layer_by_id(&mut self, id: u64) -> (changed: bool)
        requires
            old(self).wf(),
        ensures
            final(self).wf(),
            final(self).spec_layers() == old(self).spec_layers(),
            final(self).spec_next_id() == old(self).spec_next_id(),
            final(self).spec_selected_ids() == old(self).spec_selected_ids(),
            final(self).spec_anchor() == old(self).spec_anchor(),
            !has_id(old(self).spec_layers(), id) ==> !changed && final(self).spec_active() == old(self).spec_active()
                && final(self).spec_invalidation() == old(self).spec_invalidation(),
            forall|i: int| first_with_id(old(self).spec_layers(), id, i) ==> {
                &&& changed == (i != old(self).spec_active())
                &&& final(self).spec_active() == i
                &&& changed ==> final(self).spec_invalidation() == old(self).spec_invalidation().all_marked()
                &&& !changed ==> final(self).spec_invalidation() == old(self).spec_invalidation()
            },
    {
        match position_of(&self.layers, id) {
            None => false,
            Some(index) => self.activate_layer(index),
        }
    }

    /// Add a layer above the others, named after its id, and make it active;
    /// its index is returned.
    pub fn add_layer(&mut self) -> (index: usize)
        requires
            old(self).wf(),
            old(self).spec_layers().len() < usize::MAX,
        ensures
            final(self).wf(),
            index == old(self).spec_layers().len(),
            final(self).spec_layers() == old(self).spec_layers().push(new_layer(old(self).spec_next_id())),
            final(self).spec_active() == index,
            final(self).spec_next_id() == next_layer_id(old(self).spec_next_id()),
            final(self).spec_invalidation() == old(self).spec_invalidation().all_marked(),
    {
        let id = self.next_id;
        self.next_id = if id == u64::MAX || id == 0 { 2 } else { id + 1 };
        let mut name = str_chars("Layer ");
        push_decimal(&mut name, id);
        let layer = LayerInfo {
            id,
            name: string_from_chars(name.as_slice()),
            visible: true,
            opacity: 255,
            blend_mode: BlendMode::Multiply,
        };
        self.layers.push(layer);
        assert(self.spec_layers() =~= old(self).spec_layers().push(new_layer(id)));
        let index = self.layers.len() - 1;
        self.activate_layer(index);
        index
    }

    /// Remove the active layer, unless it is the only one; the layer that
    /// took its place, or the new top layer, becomes active.
    pub fn remove_active_layer(&mut self) -> (removed: bool)
        requires
            old(self).wf(),
        ensures
            final(self).wf(),
            final(self).spec_next_id() == old(self).spec_next_id(),
            final(self).spec_selected_ids() == old(self).spec_selected_ids(),
            final(self).spec_anchor() == old(self).spec_anchor(),
            removed == (old(self).spec_layers().len() > 1),
            removed ==> final(self).spec_layers() == old(self).spec_layers().remove(old(self).spec_active())
                && final(self).spec_active() == if old(self).spec_active() < old(self).spec_layers().len() - 1 {
                    old(self).spec_active() } else { old(self).spec_layers().len() - 2 }
                && final(self).spec_invalidation() == old(self).spec_invalidation().all_marked(),
            !removed ==> final(self).spec_layers() == old(self).spec_layers() && final(self).spec_active() == old(self).spec_active()
                && final(self).spec_invalidation() == old(self).spec_invalidation(),
    {
        if self.layers.len() <= 1 {
            return false;
        }
        let removed_index = self.active;
        self.layers.remove(removed_index);
        assert(self.spec_layers() =~= old(self).spec_layers().remove(removed_index as int));
        let last = self.layers.len() - 1;
        self.active = if removed_index < last { removed_index } else { last };
        self.invalidation.mark_all_dirty();
        true
    }

    /// Show or hide layer `index`; `false` when it is out of range or
    /// already so.
    pub fn set_layer_visible(&mut self, index: usize, visible: bool) -> (changed: bool)
        requires
            old(self).wf(),
        ensures
            final(self).wf(),
            final(self).spec_active() == old(self).spec_active(),
            final(self).spec_next_id() == old(self).spec_next_id(),
            final(self).spec_selected_ids() == old(self).spec_selected_ids(),
            final(self).spec_anchor() == old(self).spec_anchor(),
            changed == (index < old(self).spec_layers().len() && old(self).spec_layers()[index as int].visible != visible),
            changed ==> final(self).spec_layers() == old(self).spec_layers().update(index as int,
                    LayerView { visible, ..old(self).spec_layers()[index as int] })
                && final(self).spec_invalidation() == old(self).spec_invalidation().all_marked(),
            !changed ==> final(self).spec_layers() == old(self).spec_layers() && final(self).spec_invalidation() == old(self).spec_invalidation(),
    {
        if index >= self.layers.len() || self.layers[index].visible == visible {
            return false;
        }
        let l = &self.layers[index];
        let layer = LayerInfo { id: l.id, name: l.name.clone(), visible, opacity: l.opacity, blend_mode: l.blend_mode };
        self.layers.set(index, layer);
        assert(self.spec_layers() =~= old(self).spec_layers().update(index as int, LayerView { visible, ..old(self).spec_layers()[index as int] }));
        self.invalidation.mark_all_dirty();
        true
    }

    /// Set the blend mode of the layer with id `id`; `false` when there is
    /// none or it already blends so.
    pub fn set_layer_blend_mode(&mut self, id: u64, mode: BlendMode) -> (changed: bool)
        requires
            old(self).wf(),
        ensures
            final(self).wf(),
            final(self).spec_active() == old(self).spec_active(),
            final(self).spec_next_id() == old(self).spec_next_id(),
            final(self).spec_selected_ids() == old(self).spec_selected_ids(),
            final(self).spec_anchor() == old(self).spec_anchor(),
            !has_id(old(self).spec_layers(), id) ==> !changed,
            !changed ==> final(self).spec_layers() == old(self).spec_layers() && final(self).spec_invalidation() == old(self).spec_invalidation(),
            forall|i: int| first_with_id(old(self).spec_layers(), id, i) ==> {
                &&& changed == (old(self).spec_layers()[i].blend_mode != mode)
                &&& changed ==> final(self).spec_layers() == old(self).spec_layers().update(i, LayerView { blend_mode: mode, ..old(self).spec_layers()[i] })
                    && final(self).spec_invalidation() == old(self).spec_invalidation().all_marked()
            },
    {
        let index = match position_of(&self.layers, id) {
            None => return false,
            Some(i) => i,
        };
        if self.layers[index].blend_mode == mode {
            return false;
        }
        let l = &self.layers[index];
        let layer = LayerInfo { id: l.id, name: l.name.clone(), visible: l.visible, opacity: l.opacity, blend_mode: mode };
        self.layers.set(index, layer);
        assert(self.spec_layers() =~= old(self).spec_layers().update(index as int, LayerView { blend_mode: mode, ..old(self).spec_layers()[index as int] }));
        self.invalidation.mark_all_dirty();
        true
    }

    /// Set the opacity of the layer with id `id`; `false` when there is none
    /// or it already has that opacity.
    pub fn set_layer_opacity(&mut self, id: u64, opacity: u8) -> (changed: bool)
        requires
            old(self).wf(),
        ensures
            final(self).wf(),
            final(self).spec_active() == old(self).spec_active(),
            final(self).spec_next_id() == old(self).spec_next_id(),
            final(self).spec_selected_ids() == old(self).spec_selected_ids(),
            final(self).spec_anchor() == old(self).spec_anchor(),
            !has_id(old(self).spec_layers(), id) ==> !changed,
            !changed ==> final(self).spec_layers() == old(self).spec_layers() && final(self).spec_invalidation() == old(self).spec_invalidation(),
            forall|i: int| first_with_id(old(self).spec_layers(), id, i) ==> {
                &&& changed == (old(self).spec_layers()[i].opacity != opacity)
                &&& changed ==> final(self).spec_layers() == old(self).spec_layers().update(i, LayerView { opacity, ..old(self).spec_layers()[i] })
                    && final(self).spec_invalidation() == old(self).spec_invalidation().all_marked()
            },
    {
        let index = match position_of(&self.layers, id) {
            None => return false,
            Some(i) => i,
        };
        if self.layers[index].opacity == opacity {
            return false;
        }
        let l = &self.layers[index];
        let layer = LayerInfo { id: l.id, name: l.name.clone(), visible: l.visible, opacity, blend_mode: l.blend_mode };
        self.layers.set(index, layer);
        assert(self.spec_layers() =~= old(self).spec_layers().update(index as int, LayerView { opacity, ..old(self).spec_layers()[index as int] }));
        self.invalidation.mark_all_dirty();
        true
    }

    /// Rename layer `index` to `name` without its surrounding whitespace;
    /// `false` when it is out of range, the name is blank, or unchanged.
    pub fn rename_layer(&mut self, index: usize, name: String) -> (changed: bool)
        requires
            old(self).wf(),
        ensures
            final(self).wf(),
            final(self).spec_active() == old(self).spec_active(),
            final(self).spec_next_id() == old(self).spec_next_id(),
            final(self).spec_selected_ids() == old(self).spec_selected_ids(),
            final(self).spec_anchor() == old(self).spec_anchor(),
            final(self).spec_invalidation() == old(self).spec_invalidation(),
            changed == (index < old(self).spec_layers().len() && trimmed(name@).len() > 0
                && old(self).spec_layers()[index as int].name != trimmed(name@)),
            changed ==> final(self).spec_layers() == old(self).spec_layers().update(index as int,
                LayerView { name: trimmed(name@), ..old(self).spec_layers()[index as int] }),
            !changed ==> final(self).spec_layers() == old(self).spec_layers(),
    {
        if index >= self.layers.len() {
            return false;
        }
        let t = trim(name.as_str());
        let empty = t.as_str().is_empty();
        if empty || self.layers[index].name == t {
            return false;
        }
        let l = &self.layers[index];
        let layer = LayerInfo { id: l.id, name: t, visible: l.visible, opacity: l.opacity, blend_mode: l.blend_mode };
        self.layers.set(index, layer);
        assert(self.spec_layers() =~= old(self).spec_layers().update(index as int, LayerView { name: trimmed(name@), ..old(self).spec_layers()[index as int] }));
        true
    }

    /// Move the active layer one place up; `false` when it is the top one.
    pub fn move_active_layer_up(&mut self) -> (moved: bool)
        requires
            old(self).wf(),
        ensures
            final(self).wf(),
            final(self).spec_next_id() == old(self).spec_next_id(),
            final(self).spec_selected_ids() == old(self).spec_selected_ids(),
            final(self).spec_anchor() == old(self).spec_anchor(),
            moved == (old(self).spec_active() + 1 < old(self).spec_layers().len()),
            moved ==> final(self).spec_layers() == swapped(old(self).spec_layers(), old(self).spec_active())
                && final(self).spec_active() == old(self).spec_active() + 1
                && final(self).spec_invalidation() == old(self).spec_invalidation().all_marked(),
            !moved ==> final(self).spec_layers() == old(self).spec_layers() && final(self).spec_active() == old(self).spec_active()
                && final(self).spec_invalidation() == old(self).spec_invalidation(),
    {
        if self.active >= self.layers.len() - 1 {
            return false;
        }
        swap_up(&mut self.layers, self.active);
        self.active = self.active + 1;
        self.invalidation.mark_all_dirty();
        true
    }

    /// Move the active layer one place down; `false` when it is the bottom one.
    pub fn move_active_layer_down(&mut self) -> (moved: bool)
        requires
            old(self).wf(),
        ensures
            final(self).wf(),
            final(self).spec_next_id() == old(self).spec_next_id(),
            final(self).spec_selected_ids() == old(self).spec_selected_ids(),
            final(self).spec_anchor() == old(self).spec_anchor(),
            moved == (old(self).spec_active() > 0),
            moved ==> final(self).spec_layers() == swapped(old(self).spec_layers(), old(self).spec_active() - 1)
                && final(self).spec_active() == old(self).spec_active() - 1
                && final(self).spec_invalidation() == old(self).spec_invalidation().all_marked(),
            !moved ==> final(self).spec_layers() == old(self).spec_layers() && final(self).spec_active() == old(self).spec_active()
                && final(self).spec_invalidation() == old(self).spec_invalidation(),
    {
        if self.active == 0 {
            return false;
        }
        swap_up(&mut self.layers, self.active - 1);
        self.active = self.active - 1;
        self.invalidation.mark_all_dirty();
        true
    }
}

impl LayerStack {
    /// Move the layer with id `dragged` just above (`above`) or below the
    /// layer with id `target`; the active layer stays active. `false` when
    /// either is missing, they are the same, or nothing moved.
    #[verifier::spinoff_prover]
    #[verifier::rlimit(50)]
    pub fn move_layer_relative(&mut self, dragged: u64, target: u64, above: bool) -> (moved: bool)
        requires
            old(self).wf(),
        ensures
            final(self).wf(),
            final(self).spec_next_id() == old(self).spec_next_id(),
            final(self).spec_selected_ids() == old(self).spec_selected_ids(),
            final(self).spec_anchor() == old(self).spec_anchor(),
            match relative_move(old(self).spec_layers(), dragged, target, above) {
                None => !moved && final(self).spec_layers() == old(self).spec_layers()
                    && final(self).spec_active() == old(self).spec_active()
                    && final(self).spec_invalidation() == old(self).spec_invalidation(),
                Some((layers, from, to)) => {
                    &&& final(self).spec_layers() == layers
                    &&& first_with_id(layers, old(self).spec_layers()[old(self).spec_active()].id, final(self).spec_active())
                    &&& moved == (from != to)
                    &&& moved ==> final(self).spec_invalidation() == old(self).spec_invalidation().all_marked()
                    &&& !moved ==> final(self).spec_invalidation() == old(self).spec_invalidation()
                },
            },
    {
        let ghost old_layers = self.spec_layers();
        if dragged == target {
            return false;
        }
        let from = match position_of(&self.layers, dragged) {
            None => return false,
            Some(f) => f,
        };
        if position_of(&self.layers, target).is_none() {
            return false;
        }
        proof {
            let j = choose|j: int| 0 <= j < old_layers.len() && (#[trigger] old_layers[j]).id == target;
            assert(first_with_id(old_layers, dragged, from as int));
        }
        let active_id = self.layers[self.active].id;
        let ghost active_view = old_layers[self.active as int];
        let moved = self.layers.remove(from);
        let ghost rest = self.spec_layers();
        assert(rest =~= old_layers.remove(from as int));
        let t = match position_of(&self.layers, target) {
            Some(t) => t,
            None => {
                proof {
                    let j = choose|j: int| 0 <= j < old_layers.len() && (#[trigger] old_layers[j]).id == target;
                    assert(j != from);
                    if j < from { assert(rest[j].id == target); } else { assert(rest[j - 1].id == target); }
                }
                return false;
            },
        };
        let remaining = self.layers.len();
        assert(t < remaining);
        let to = if above { t + 1 } else { t };
        self.layers.insert(to, moved);
        let ghost layers = self.spec_layers();
        assert(layers =~= rest.insert(to as int, old_layers[from as int]));
        proof {
            assert(relative_move(old_layers, dragged, target, above) == Some((layers, from as int, to as int)));
        }
        let a = match position_of(&self.layers, active_id) {
            Some(a) => a,
            None => {
                proof {
                    let k = self.active as int;
                    if k == from {
                        assert(layers[to as int].id == active_id);
                    } else {
                        let r = if k < from { k } else { k - 1 };
                        assert(rest[r].id == active_id);
                        if r < to { assert(layers[r].id == active_id); } else { assert(layers[r + 1].id == active_id); }
                    }
                }
                return false;
            },
        };
        self.active = a;
        if from == to {
            return false;
        }
        self.invalidation.mark_all_dirty();
        true
    }
}

/// The positions among the first `n` layers whose id is among `ids`, bottom
/// first.
pub open spec fn picked_positions(layers: Seq<LayerView>, ids: Seq<u64>, n: int) -> Seq<int>
    decreases n,
{
    if n <= 0 {
        seq![]
    } else {
        let before = picked_positions(layers, ids, n - 1);
        if ids.contains(layers[n - 1].id) { before.push(n - 1) } else { before }
    }
}

/// The selected positions: those of the picked ids, or else the active one.
pub open spec fn selected_positions(layers: Seq<LayerView>, ids: Seq<u64>, active: int) -> Seq<int> {
    let picked = picked_positions(layers, ids, layers.len() as int);
    if picked.len() == 0 { seq![active] } else { picked }
}

/// The ids of the layers at `positions`.
pub open spec fn ids_at(layers: Seq<LayerView>, positions: Seq<int>) -> Seq<u64> {
    positions.map_values(|i: int| layers[i].id)
}

/// `ids` without `id`, in order.
pub open spec fn drop_id(ids: Seq<u64>, id: u64) -> Seq<u64>
    decreases ids.len(),
{
    if ids.len() == 0 {
        seq![]
    } else {
        let before = drop_id(ids.drop_last(), id);
        if ids.last() != id { before.push(ids.last()) } else { before }
    }
}

/// `ids` followed by the ids of layers `lo .. hi` not among them yet.
pub open spec fn range_added(layers: Seq<LayerView>, ids: Seq<u64>, lo: int, hi: int) -> Seq<u64>
    decreases hi - lo,
{
    if hi <= lo {
        ids
    } else {
        let before = range_added(layers, ids, lo, hi - 1);
        if before.contains(layers[hi - 1].id) { before } else { before.push(layers[hi - 1].id) }
    }
}

/// Where a range pick starts: the first layer with the anchor id, or else
/// the active layer.
pub open spec fn anchor_position(layers: Seq<LayerView>, anchor: Option<u64>, active: int) -> int {
    match anchor {
        Some(a) => if has_id(layers, a) { choose|i: int| first_with_id(layers, a, i) } else { active },
        None => active,
    }
}

/// The picked ids and the anchor after picking layer `index`: alone, by
/// `toggle` in or out of the selection, or with `range` every layer between
/// the anchor and it.
pub open spec fn pick(layers: Seq<LayerView>, ids: Seq<u64>, anchor: Option<u64>, active: int, index: int, toggle: bool, range: bool) -> (Seq<u64>, Option<u64>) {
    let id = layers[index].id;
    let current = ids_at(layers, selected_positions(layers, ids, active));
    if range {
        let a = anchor_position(layers, anchor, active);
        let base = if toggle { current } else { seq![] };
        let lo = if a < index { a } else { index };
        let hi = if a < index { index } else { a };
        (range_added(layers, base, lo, hi + 1), if anchor is None { Some(layers[a].id) } else { anchor })
    } else if toggle {
        (if current.contains(id) {
            if current.len() > 1 { drop_id(current, id) } else { current }
        } else {
            current.push(id)
        }, Some(id))
    } else {
        (seq![id], Some(id))
    }
}

/// The layer that becomes active after a pick: the picked one if selected,
/// else the active one if still selected, else the last selected.
pub open spec fn picked_active(picked: Seq<u64>, id: u64, active_id: u64) -> u64 {
    if picked.contains(id) { id } else if picked.contains(active_id) { active_id } else { picked.last() }
}

/// Whether `ids` holds `id`.
fn contains_id(ids: &Vec<u64>, id: u64) -> (b: bool)
    ensures
        b == ids@.contains(id),
{
    let mut i: usize = 0;
    while i < ids.len()
        invariant
            i <= ids@.len(),
            forall|q: int| 0 <= q < i ==> ids@[q] != id,
        decreases ids@.len() - i,
    {
        if ids[i] == id {
            assert(ids@[i as int] == id);
            return true;
        }
        i += 1;
    }
    false
}

/// Every picked position lies below `n`, in increasing order.
proof fn lemma_picked_in_range(layers: Seq<LayerView>, ids: Seq<u64>, n: int)
    ensures
        forall|k: int| 0 <= k < picked_positions(layers, ids, n).len() ==> 0 <= #[trigger] picked_positions(layers, ids, n)[k] < n,
    decreases n,
{
    if n > 0 {
        lemma_picked_in_range(layers, ids, n - 1);
        let before = picked_positions(layers, ids, n - 1);
        let now = picked_positions(layers, ids, n);
        assert forall|k: int| 0 <= k < now.len() implies 0 <= #[trigger] now[k] < n by {
            if k < before.len() {
                assert(now[k] == before[k]);
            }
        }
    }
}

impl LayerStack {
    /// The positions of the selected layers, bottom first; the active layer
    /// alone when no layer is picked.
    pub fn selected_layer_indices(&self) -> (r: Vec<usize>)
        requires
            self.wf(),
        ensures
            r@.len() == self.spec_selected().len(),
            forall|k: int| 0 <= k < r@.len() ==> r@[k] as int == self.spec_selected()[k],
            forall|k: int| 0 <= k < r@.len() ==> r@[k] < self.spec_layers().len(),
    {
        let ghost layers = self.spec_layers();
        let ghost ids = self.spec_selected_ids();
        let mut selected: Vec<usize> = Vec::new();
        let mut i: usize = 0;
        while i < self.layers.len()
            invariant
                i <= layers.len(),
                layers == self.spec_layers(),
                ids == self.spec_selected_ids(),
                selected@.len() == picked_positions(layers, ids, i as int).len(),
                forall|k: int| 0 <= k < selected@.len() ==> selected@[k] as int == picked_positions(layers, ids, i as int)[k],
            decreases layers.len() - i,
        {
            assert(layers[i as int].id == self.layers@[i as int].id);
            if contains_id(&self.selection.ids, self.layers[i].id) {
                selected.push(i);
            }
            i += 1;
        }
        proof {
            lemma_picked_in_range(layers, ids, layers.len() as int);
        }
        if selected.len() == 0 {
            selected.push(self.active);
        }
        selected
    }

    /// Whether the selection holds two or more layers, all visible.
    pub fn can_merge_selected(&self) -> (b: bool)
        requires
            self.wf(),
        ensures
            b == (self.spec_selected().len() >= 2
                && forall|k: int| 0 <= k < self.spec_selected().len() ==> #[trigger] self.spec_layers()[self.spec_selected()[k]].visible),
    {
        let indices = self.selected_layer_indices();
        if indices.len() < 2 {
            return false;
        }
        let mut k: usize = 0;
        while k < indices.len()
            invariant
                k <= indices@.len(),
                self.wf(),
                indices@.len() == self.spec_selected().len(),
                forall|q: int| 0 <= q < indices@.len() ==> indices@[q] as int == self.spec_selected()[q],
                forall|q: int| 0 <= q < indices@.len() ==> indices@[q] < self.spec_layers().len(),
                forall|q: int| 0 <= q < k ==> #[trigger] self.spec_layers()[self.spec_selected()[q]].visible,
            decreases indices@.len() - k,
        {
            let i = indices[k];
            if !self.layers[i].visible {
                assert(!self.spec_layers()[self.spec_selected()[k as int]].visible);
                return false;
            }
            k += 1;
        }
        true
    }
}

/// `ids` without `id`, in order.
fn ids_without(ids: &Vec<u64>, id: u64) -> (r: Vec<u64>)
    ensures
        r@ == drop_id(ids@, id),
{
    let mut out: Vec<u64> = Vec::new();
    let mut i: usize = 0;
    while i < ids.len()
        invariant
            i <= ids@.len(),
            out@ == drop_id(ids@.take(i as int), id),
        decreases ids@.len() - i,
    {
        assert(ids@.take(i + 1).drop_last() =~= ids@.take(i as int));
        if ids[i] != id {
            out.push(ids[i]);
        }
        i += 1;
    }
    assert(ids@.take(ids@.len() as int) =~= ids@);
    out
}

/// What `drop_id` keeps was there before.
proof fn lemma_drop_id_within(ids: Seq<u64>, id: u64)
    ensures
        forall|x: u64| drop_id(ids, id).contains(x) ==> ids.contains(x),
    decreases ids.len(),
{
    if ids.len() > 0 {
        lemma_drop_id_within(ids.drop_last(), id);
        assert forall|x: u64| drop_id(ids, id).contains(x) implies ids.contains(x) by {
            let before = drop_id(ids.drop_last(), id);
            if before.contains(x) {
                assert(ids.drop_last().contains(x));
                let j = choose|j: int| 0 <= j < ids.drop_last().len() && ids.drop_last()[j] == x;
                assert(ids[j] == x);
            } else {
                assert(ids[ids.len() - 1] == x);
            }
        }
    }
}

/// Whether every id of `ids` belongs to some layer.
pub open spec fn all_present(layers: Seq<LayerView>, ids: Seq<u64>) -> bool {
    forall|x: u64| ids.contains(x) ==> has_id(layers, x)
}

/// A range pick adds only ids of layers.
proof fn lemma_range_added_present(layers: Seq<LayerView>, ids: Seq<u64>, lo: int, hi: int)
    requires
        0 <= lo,
        hi <= layers.len(),
        all_present(layers, ids),
    ensures
        all_present(layers, range_added(layers, ids, lo, hi)),
    decreases hi - lo,
{
    if lo < hi {
        lemma_range_added_present(layers, ids, lo, hi - 1);
        let before = range_added(layers, ids, lo, hi - 1);
        assert(layers[hi - 1].id == layers[hi - 1].id);
        assert forall|x: u64| range_added(layers, ids, lo, hi).contains(x) implies has_id(layers, x) by {
            if before.contains(x) {
            } else {
                assert(x == layers[hi - 1].id);
            }
        }
    }
}

/// The ids of the selected layers all belong to layers.
proof fn lemma_selected_present(layers: Seq<LayerView>, ids: Seq<u64>, active: int)
    requires
        0 <= active < layers.len(),
    ensures
        all_present(layers, ids_at(layers, selected_positions(layers, ids, active))),
        forall|k: int| 0 <= k < selected_positions(layers, ids, active).len()
            ==> 0 <= #[trigger] selected_positions(layers, ids, active)[k] < layers.len(),
{
    lemma_picked_in_range(layers, ids, layers.len() as int);
    let sel = selected_positions(layers, ids, active);
    let cur = ids_at(layers, sel);
    assert forall|x: u64| cur.contains(x) implies has_id(layers, x) by {
        let j = choose|j: int| 0 <= j < cur.len() && cur[j] == x;
        assert(layers[sel[j]].id == x);
    }
}

/// Every id a pick leaves selected belongs to a layer.
proof fn lemma_pick_present(layers: Seq<LayerView>, ids: Seq<u64>, anchor: Option<u64>, active: int, index: int, toggle: bool, range: bool)
    requires
        0 <= active < layers.len(),
        0 <= index < layers.len(),
    ensures
        all_present(layers, pick(layers, ids, anchor, active, index, toggle, range).0),
        0 <= anchor_position(layers, anchor, active) < layers.len(),
{
    lemma_selected_present(layers, ids, active);
    let id = layers[index].id;
    let current = ids_at(layers, selected_positions(layers, ids, active));
    assert(has_id(layers, id));
    if let Some(a) = anchor {
        if has_id(layers, a) {
            let w = choose|i: int| 0 <= i < layers.len() && (#[trigger] layers[i]).id == a;
            lemma_first_exists(layers, a, w);
        }
    }
    let a = anchor_position(layers, anchor, active);
    if range {
        let base = if toggle { current } else { seq![] };
        let lo = if a < index { a } else { index };
        let hi = if a < index { index } else { a };
        lemma_range_added_present(layers, base, lo, hi + 1);
    } else if toggle {
        lemma_drop_id_within(current, id);
        assert forall|x: u64| current.push(id).contains(x) implies has_id(layers, x) by {
            if x != id {
                let j = choose|j: int| 0 <= j < current.push(id).len() && current.push(id)[j] == x;
                assert(current[j] == x);
            }
        }
    } else {
        assert forall|x: u64| seq![id].contains(x) implies has_id(layers, x) by {
            assert(seq![id][0] == id);
        }
    }
}

impl LayerStack {
    /// Pick layer `index` in the layer panel: alone, by `toggle` in or out of
    /// the selection, or with `range` every layer between the anchor and it;
    /// then activate the picked layer if selected, else keep the active one
    /// if still selected, else the last selected. Nothing happens when
    /// `index` is out of range.
    pub fn select_layer(&mut self, index: usize, toggle: bool, range: bool)
        requires
            old(self).wf(),
            index < old(self).spec_layers().len() ==> pick(old(self).spec_layers(), old(self).spec_selected_ids(),
                old(self).spec_anchor(), old(self).spec_active(), index as int, toggle, range).0.len() > 0,
        ensures
            final(self).wf(),
            final(self).spec_layers() == old(self).spec_layers(),
            final(self).spec_next_id() == old(self).spec_next_id(),
            index >= old(self).spec_layers().len() ==> {
                &&& final(self).spec_active() == old(self).spec_active()
                &&& final(self).spec_selected_ids() == old(self).spec_selected_ids()
                &&& final(self).spec_anchor() == old(self).spec_anchor()
                &&& final(self).spec_invalidation() == old(self).spec_invalidation()
            },
            index < old(self).spec_layers().len() ==> {
                let picked = pick(old(self).spec_layers(), old(self).spec_selected_ids(), old(self).spec_anchor(),
                    old(self).spec_active(), index as int, toggle, range);
                let a = picked_active(picked.0, old(self).spec_layers()[index as int].id,
                    old(self).spec_layers()[old(self).spec_active()].id);
                &&& final(self).spec_selected_ids() == picked.0
                &&& final(self).spec_anchor() == picked.1
                &&& first_with_id(old(self).spec_layers(), a, final(self).spec_active())
                &&& picked.0.contains(final(self).spec_layers()[final(self).spec_active()].id)
                &&& final(self).spec_active() == old(self).spec_active() ==> final(self).spec_invalidation() == old(self).spec_invalidation()
                &&& final(self).spec_active() != old(self).spec_active() ==> final(self).spec_invalidation() == old(self).spec_invalidation().all_marked()
            },
    {
        if index >= self.layers.len() {
            return;
        }
        let ghost layers = self.spec_layers();
        let ghost picked = pick(layers, self.spec_selected_ids(), self.spec_anchor(), self.spec_active(), index as int, toggle, range);
        let ghost sel = self.spec_selected();
        proof {
            lemma_pick_present(layers, self.spec_selected_ids(), self.spec_anchor(), self.spec_active(), index as int, toggle, range);
            lemma_selected_present(layers, self.spec_selected_ids(), self.spec_active());
        }
        let id = self.layers[index].id;
        let indices = self.selected_layer_indices();
        let mut ids: Vec<u64> = Vec::new();
        let mut k: usize = 0;
        while k < indices.len()
            invariant
                k <= indices@.len(),
                layers == self.spec_layers(),
                layers.len() == self.layers@.len(),
                indices@.len() == sel.len(),
                forall|q: int| 0 <= q < indices@.len() ==> indices@[q] as int == sel[q],
                forall|q: int| 0 <= q < indices@.len() ==> indices@[q] < layers.len(),
                ids@.len() == k,
                forall|q: int| 0 <= q < k ==> ids@[q] == layers[sel[q]].id,
            decreases indices@.len() - k,
        {
            ids.push(self.layers[indices[k]].id);
            k += 1;
        }
        assert(ids@ =~= ids_at(layers, sel));
        if range {
            let anchor = match self.selection.anchor {
                Some(a) => match position_of(&self.layers, a) {
                    Some(p) => p,
                    None => self.active,
                },
                None => self.active,
            };
            assert(anchor == anchor_position(layers, self.spec_anchor(), self.spec_active()));
            if !toggle {
                ids = Vec::new();
            }
            let lo = if anchor < index { anchor } else { index };
            let hi = if anchor < index { index } else { anchor };
            let ghost base = ids@;
            let n = self.layers.len();
            let mut i = lo;
            while i <= hi
                invariant
                    lo <= i <= hi + 1,
                    hi < n,
                    n == layers.len(),
                    layers == self.spec_layers(),
                    ids@ == range_added(layers, base, lo as int, i as int),
                decreases hi + 1 - i,
            {
                let lid = self.layers[i].id;
                assert(lid == layers[i as int].id);
                if !contains_id(&ids, lid) {
                    ids.push(lid);
                }
                i += 1;
            }
            if self.selection.anchor.is_none() {
                self.selection.anchor = Some(self.layers[anchor].id);
            }
        } else if toggle {
            if contains_id(&ids, id) {
                if ids.len() > 1 {
                    ids = ids_without(&ids, id);
                }
            } else {
                ids.push(id);
            }
            self.selection.anchor = Some(id);
        } else {
            ids = vec![id];
            assert(ids@ =~= seq![id]);
            self.selection.anchor = Some(id);
        }
        assert(ids@ == picked.0);
        let current = self.layers[self.active].id;
        let active = if contains_id(&ids, id) {
            id
        } else if contains_id(&ids, current) {
            current
        } else {
            ids[ids.len() - 1]
        };
        proof {
            assert(ids@.contains(active)) by {
                if !ids@.contains(id) && !ids@.contains(current) {
                    assert(ids@[ids@.len() - 1] == active);
                }
            }
            let w = choose|i: int| 0 <= i < layers.len() && (#[trigger] layers[i]).id == active;
            lemma_first_exists(layers, active, w);
        }
        self.selection.ids = ids;
        self.activate_layer_by_id(active);
    }
}

/// Picked positions increase.
proof fn lemma_picked_increasing(layers: Seq<LayerView>, ids: Seq<u64>, n: int)
    ensures
        forall|a: int, b: int| 0 <= a < b < picked_positions(layers, ids, n).len()
            ==> #[trigger] picked_positions(layers, ids, n)[a] < #[trigger] picked_positions(layers, ids, n)[b],
    decreases n,
{
    if n > 0 {
        lemma_picked_increasing(layers, ids, n - 1);
        lemma_picked_in_range(layers, ids, n - 1);
        let before = picked_positions(layers, ids, n - 1);
        let now = picked_positions(layers, ids, n);
        assert forall|a: int, b: int| 0 <= a < b < now.len() implies #[trigger] now[a] < #[trigger] now[b] by {
            assert(now[a] == before[a]);
            if b < before.len() {
                assert(now[b] == before[b]);
            }
        }
    }
}

/// A range pick over a non-empty span leaves something selected.
proof fn lemma_range_added_nonempty(layers: Seq<LayerView>, ids: Seq<u64>, lo: int, hi: int)
    requires
        lo < hi,
    ensures
        range_added(layers, ids, lo, hi).len() > 0,
    decreases hi - lo,
{
    if lo < hi - 1 {
        lemma_range_added_nonempty(layers, ids, lo, hi - 1);
    }
}

/// `drop_id` keeps every other id.
proof fn lemma_drop_id_keeps(ids: Seq<u64>, id: u64, x: u64)
    requires
        x != id,
        ids.contains(x),
    ensures
        drop_id(ids, id).contains(x),
    decreases ids.len(),
{
    if ids.last() == x {
        assert(drop_id(ids, id).last() == x);
    } else {
        let j = choose|j: int| 0 <= j < ids.len() && ids[j] == x;
        assert(ids.drop_last()[j] == x);
        lemma_drop_id_keeps(ids.drop_last(), id, x);
        let before = drop_id(ids.drop_last(), id);
        let k = choose|k: int| 0 <= k < before.len() && before[k] == x;
        if ids.last() != id {
            assert(before.push(ids.last())[k] == x);
        }
    }
}

/// When no two layers share an id, no pick leaves the selection empty.
pub proof fn lemma_pick_never_empty(layers: Seq<LayerView>, ids: Seq<u64>, anchor: Option<u64>, active: int, index: int, toggle: bool, range: bool)
    requires
        distinct_ids(layers),
        0 <= active < layers.len(),
        0 <= index < layers.len(),
    ensures
        pick(layers, ids, anchor, active, index, toggle, range).0.len() > 0,
{
    lemma_pick_present(layers, ids, anchor, active, index, toggle, range);
    let id = layers[index].id;
    let sel = selected_positions(layers, ids, active);
    let current = ids_at(layers, sel);
    if range {
    } else if toggle {
        if current.contains(id) && current.len() > 1 {
            lemma_selected_present(layers, ids, active);
            lemma_picked_increasing(layers, ids, layers.len() as int);
            assert(sel[0] < sel[1]);
            assert(current[0] != current[1]);
            let x = if current[0] != id { current[0] } else { current[1] };
            assert(current.contains(x));
            lemma_drop_id_keeps(current, id, x);
        }
    }
    let a = anchor_position(layers, anchor, active);
    if range {
        let base = if toggle { current } else { seq![] };
        let lo = if a < index { a } else { index };
        let hi = if a < index { index } else { a };
        lemma_range_added_nonempty(layers, base, lo, hi + 1);
    }
}

/// The layers after moving the one with id `dragged` next to the one with
/// id `target`, with the positions it left and took; none when the move is
/// refused.
pub open spec fn relative_move(layers: Seq<LayerView>, dragged: u64, target: u64, above: bool) -> Option<(Seq<LayerView>, int, int)> {
    if dragged == target || !has_id(layers, dragged) || !has_id(layers, target) {
        None
    } else {
        let from = choose|i: int| first_with_id(layers, dragged, i);
        let rest = layers.remove(from);
        let t = choose|i: int| first_with_id(rest, target, i);
        let to = if above { t + 1 } else { t };
        Some((rest.insert(to, layers[from]), from, to))
    }
}

/// `layers` with positions `i` and `i + 1` exchanged.
pub open spec fn swapped(layers: Seq<LayerView>, i: int) -> Seq<LayerView> {
    layers.update(i, layers[i + 1]).update(i + 1, layers[i])
}

/// The id given to the layer after one with id `id`: the next number,
/// skipping 0 and 1 when the counter wraps.
pub open spec fn next_layer_id(id: u64) -> u64 {
    if id == u64::MAX || id == 0 { 2 } else { (id + 1) as u64 }
}

/// Exchange positions `i` and `i + 1`.
fn swap_up(v: &mut Vec<LayerInfo>, i: usize)
    requires
        i + 1 < old(v)@.len(),
    ensures
        layer_views(final(v)@) == swapped(layer_views(old(v)@), i as int),
{
    let n = v.len();
    let x = v.remove(i);
    v.insert(i + 1, x);
    assert(layer_views(v@) =~= swapped(layer_views(old(v)@), i as int));
}

} // verus!

verus! {

/// Moving a layer one place up and then one place down (or down, then up)
/// gives back the layers as they were.
pub proof fn lemma_up_then_down_restores(layers: Seq<LayerView>, i: int)
    requires
        0 <= i,
        i + 1 < layers.len(),
    ensures
        swapped(swapped(layers, i), i) == layers,
{
    assert(swapped(swapped(layers, i), i) =~= layers);
}

/// Adding a layer and then removing it, the new active one, gives back the
/// layers as they were.
pub proof fn lemma_add_then_remove_restores(layers: Seq<LayerView>, id: u64)
    ensures
        layers.push(new_layer(id)).remove(layers.len() as int) == layers,
{
    assert(layers.push(new_layer(id)).remove(layers.len() as int) =~= layers);
}

/// A relative move keeps every layer, only in another order: the moved
/// layer lands at the position reported, and the count of each layer is
/// unchanged.
pub proof fn lemma_relative_move_permutes(layers: Seq<LayerView>, dragged: u64, target: u64, above: bool)
    ensures
        relative_move(layers, dragged, target, above) matches Some((moved, from, to)) ==> {
            &&& moved.len() == layers.len()
            &&& moved.to_multiset() == layers.to_multiset()
            &&& 0 <= from < layers.len()
            &&& 0 <= to < moved.len()
            &&& moved[to] == layers[from]
        },
{
    broadcast use vstd::seq_lib::group_to_multiset_ensures;
    if let Some((moved, from, to)) = relative_move(layers, dragged, target, above) {
        let f = choose|i: int| first_with_id(layers, dragged, i);
        let w = choose|i: int| 0 <= i < layers.len() && (#[trigger] layers[i]).id == dragged;
        assert(first_with_id(layers, dragged, f)) by {
            lemma_first_exists(layers, dragged, w);
        }
        let rest = layers.remove(f);
        let wt = choose|i: int| 0 <= i < layers.len() && (#[trigger] layers[i]).id == target;
        let rt = if wt < f { wt } else { wt - 1 };
        assert(rest[rt].id == target);
        lemma_first_exists(rest, target, rt);
        let t = choose|i: int| first_with_id(rest, target, i);
        let x = layers[f];
        assert(moved.remove(to) =~= rest);
        assert(moved[to] == x);
        assert(rest.to_multiset() == moved.to_multiset().remove(x));
        assert(rest.to_multiset() == layers.to_multiset().remove(x));
        assert(moved.to_multiset().count(x) > 0);
        assert(layers.to_multiset().count(x) > 0);
        assert(moved.to_multiset() =~= rest.to_multiset().insert(x));
        assert(layers.to_multiset() =~= rest.to_multiset().insert(x));
    }
}

/// When some layer has id `id`, a first one does.
proof fn lemma_first_exists(layers: Seq<LayerView>, id: u64, w: int)
    requires
        0 <= w < layers.len(),
        layers[w].id == id,
    ensures
        exists|i: int| first_with_id(layers, id, i),
    decreases w,
{
    if forall|q: int| 0 <= q < w ==> (#[trigger] layers[q]).id != id {
        assert(first_with_id(layers, id, w));
    } else {
        let q = choose|q: int| 0 <= q < w && (#[trigger] layers[q]).id == id;
        lemma_first_exists(layers, id, q);
    }
}

} // verus!
