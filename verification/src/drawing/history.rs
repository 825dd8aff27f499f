//! The undo and redo stacks of a drawing, where an entry goes when it is
//! undone or redone, and the record of the pixels one edit changes: each
//! pixel once, with its state from before the edit.
use vstd::prelude::*;
use crate::drawing::document::DirtyRect;

verus! {

/// What became of an entry taken off a stack.
#[derive(Debug, Clone, Copy, PartialEq, Eq, Structural)]
pub enum Outcome {
    /// It was applied to the drawing: it moves to the other stack.
    Applied,
    /// Applying it failed and changed nothing: it goes back where it was.
    Refused,
    /// Its layer no longer exists: it is dropped.
    Lost,
}

/// Bounded undo and redo stacks of entries `E`.
pub struct History<E> {
    undo: Vec<E>,
    redo: Vec<E>,
    max_entries: usize,
}

impl<E> History<E> {
    pub closed spec fn undo_stack(&self) -> Seq<E> {
        self.undo@
    }

    pub closed spec fn redo_stack(&self) -> Seq<E> {
        self.redo@
    }

    pub closed spec fn limit(&self) -> nat {
        self.max_entries as nat
    }

    /// Well formed: the limit is positive and the two stacks together hold
    /// at most that many entries.
    pub open spec fn wf(&self) -> bool {
        &&& self.limit() >= 1
        &&& self.undo_stack().len() + self.redo_stack().len() <= self.limit()
    }

    /// Empty stacks keeping at most `max_entries` entries (at least one).
    pub fn new(max_entries: usize) -> (h: Self)
        ensures
            h.wf(),
            h.undo_stack() == Seq::<E>::empty(),
            h.redo_stack() == Seq::<E>::empty(),
            h.limit() == if max_entries >= 1 { max_entries as nat } else { 1 },
    {
        let h = History { undo: Vec::new(), redo: Vec::new(), max_entries: if max_entries >= 1 { max_entries } else { 1 } };
        assert(h.undo_stack() =~= Seq::<E>::empty());
        assert(h.redo_stack() =~= Seq::<E>::empty());
        h
    }

    /// Record a new edit: the redo stack is discarded, and the oldest entry
    /// is forgotten when the limit is exceeded.
    pub fn record(&mut self, entry: E)
        requires
            old(self).wf(),
        ensures
            final(self).wf(),
            final(self).limit() == old(self).limit(),
            final(self).redo_stack() == Seq::<E>::empty(),
            old(self).undo_stack().len() < old(self).limit() ==> final(self).undo_stack() == old(self).undo_stack().push(entry),
            old(self).undo_stack().len() >= old(self).limit() ==> final(self).undo_stack() == old(self).undo_stack().push(entry).skip(1),
    {
        self.redo.clear();
        self.undo.push(entry);
        if self.undo.len() > self.max_entries {
            self.undo.remove(0);
            assert(self.undo@ =~= old(self).undo_stack().push(entry).skip(1));
        }
        assert(self.redo@ =~= Seq::<E>::empty());
    }

    /// Forget every entry.
    pub fn clear(&mut self)
        requires
            old(self).wf(),
        ensures
            final(self).wf(),
            final(self).limit() == old(self).limit(),
            final(self).undo_stack() == Seq::<E>::empty(),
            final(self).redo_stack() == Seq::<E>::empty(),
    {
        self.undo.clear();
        self.redo.clear();
        assert(self.undo@ =~= Seq::<E>::empty());
        assert(self.redo@ =~= Seq::<E>::empty());
    }

    pub fn can_undo(&self) -> (b: bool)
        ensures
            b == (self.undo_stack().len() > 0),
    {
        self.undo.len() > 0
    }

    pub fn can_redo(&self) -> (b: bool)
        ensures
            b == (self.redo_stack().len() > 0),
    {
        self.redo.len() > 0
    }

    /// Take the most recent edit off the undo stack, to undo it.
    pub fn take_undo(&mut self) -> (e: Option<E>)
        requires
            old(self).wf(),
        ensures
            final(self).limit() == old(self).limit(),
            final(self).redo_stack() == old(self).redo_stack(),
            old(self).undo_stack().len() == 0 ==> e is None && final(self).undo_stack() == old(self).undo_stack(),
            old(self).undo_stack().len() > 0 ==> e == Some(old(self).undo_stack().last())
                && final(self).undo_stack() == old(self).undo_stack().drop_last(),
    {
        self.undo.pop()
    }

    /// Take the most recently undone edit off the redo stack, to redo it.
    pub fn take_redo(&mut self) -> (e: Option<E>)
        requires
            old(self).wf(),
        ensures
            final(self).limit() == old(self).limit(),
            final(self).undo_stack() == old(self).undo_stack(),
            old(self).redo_stack().len() == 0 ==> e is None && final(self).redo_stack() == old(self).redo_stack(),
            old(self).redo_stack().len() > 0 ==> e == Some(old(self).redo_stack().last())
                && final(self).redo_stack() == old(self).redo_stack().drop_last(),
    {
        self.redo.pop()
    }

    /// File an entry taken by [`History::take_undo`]: an applied entry can
    /// be redone, a refused one stays undoable, a lost one is dropped.
    pub fn undone(&mut self, entry: E, outcome: Outcome)
        requires
            old(self).limit() >= 1,
            old(self).undo_stack().len() + old(self).redo_stack().len() + 1 <= old(self).limit(),
        ensures
            final(self).wf(),
            final(self).limit() == old(self).limit(),
            outcome == Outcome::Applied ==> final(self).undo_stack() == old(self).undo_stack()
                && final(self).redo_stack() == old(self).redo_stack().push(entry),
            outcome == Outcome::Refused ==> final(self).undo_stack() == old(self).undo_stack().push(entry)
                && final(self).redo_stack() == old(self).redo_stack(),
            outcome == Outcome::Lost ==> final(self).undo_stack() == old(self).undo_stack()
                && final(self).redo_stack() == old(self).redo_stack(),
    {
        match outcome {
            Outcome::Applied => self.redo.push(entry),
            Outcome::Refused => self.undo.push(entry),
            Outcome::Lost => {},
        }
    }

    /// File an entry taken by [`History::take_redo`]: an applied entry can
    /// be undone again, a refused one stays redoable, a lost one is dropped.
    pub fn redone(&mut self, entry: E, outcome: Outcome)
        requires
            old(self).limit() >= 1,
            old(self).undo_stack().len() + old(self).redo_stack().len() + 1 <= old(self).limit(),
        ensures
            final(self).wf(),
            final(self).limit() == old(self).limit(),
            outcome == Outcome::Applied ==> final(self).undo_stack() == old(self).undo_stack().push(entry)
                && final(self).redo_stack() == old(self).redo_stack(),
            outcome == Outcome::Refused ==> final(self).undo_stack() == old(self).undo_stack()
                && final(self).redo_stack() == old(self).redo_stack().push(entry),
            outcome == Outcome::Lost ==> final(self).undo_stack() == old(self).undo_stack()
                && final(self).redo_stack() == old(self).redo_stack(),
    {
        match outcome {
            Outcome::Applied => self.undo.push(entry),
            Outcome::Refused => self.redo.push(entry),
            Outcome::Lost => {},
        }
    }
}

impl<E> Default for History<E> {
    /// Stacks keeping the last 64 edits.
    fn default() -> (h: Self)
        ensures
            h.wf(),
            h.undo_stack() == Seq::<E>::empty(),
            h.redo_stack() == Seq::<E>::empty(),
            h.limit() == 64,
    {
        History::new(64)
    }
}

/// The stacks after an applied undo: the last edit moves to the redo stack.
pub open spec fn undo_step<E>(undo: Seq<E>, redo: Seq<E>) -> (Seq<E>, Seq<E>) {
    (undo.drop_last(), redo.push(undo.last()))
}

/// The stacks after an applied redo: the last undone edit moves back.
pub open spec fn redo_step<E>(undo: Seq<E>, redo: Seq<E>) -> (Seq<E>, Seq<E>) {
    (undo.push(redo.last()), redo.drop_last())
}

/// Undoing an edit and redoing it restores both stacks, and so does redoing
/// an undone edit and undoing it again; neither changes how many entries
/// are held.
pub proof fn lemma_undo_redo_round_trip<E>(undo: Seq<E>, redo: Seq<E>)
    ensures
        undo.len() > 0 ==> redo_step(undo_step(undo, redo).0, undo_step(undo, redo).1) == (undo, redo),
        redo.len() > 0 ==> undo_step(redo_step(undo, redo).0, redo_step(undo, redo).1) == (undo, redo),
        undo.len() > 0 ==> undo_step(undo, redo).0.len() + undo_step(undo, redo).1.len() == undo.len() + redo.len(),
{
    if undo.len() > 0 {
        assert(undo.drop_last().push(undo.last()) =~= undo);
        assert(redo.push(undo.last()).drop_last() =~= redo);
    }
    if redo.len() > 0 {
        assert(redo.drop_last().push(redo.last()) =~= redo);
        assert(undo.push(redo.last()).drop_last() =~= undo);
    }
}


/// The pixel at index `i` of a `width`-wide image, as a column and a row.
pub open spec fn pixel_at(i: int, width: int) -> (int, int) {
    (i % width, i / width)
}

/// Whether `r` is the smallest rectangle holding the pixels at `indices`.
pub open spec fn bounds_pixels(r: DirtyRect, indices: Seq<usize>, width: int) -> bool {
    &&& forall|k: int| 0 <= k < indices.len() ==>
        r.contains(#[trigger] pixel_at(indices[k] as int, width).0, pixel_at(indices[k] as int, width).1)
    &&& exists|k: int| 0 <= k < indices.len() && #[trigger] pixel_at(indices[k] as int, width).0 == r.min_x
    &&& exists|k: int| 0 <= k < indices.len() && #[trigger] pixel_at(indices[k] as int, width).0 + 1 == r.max_x
    &&& exists|k: int| 0 <= k < indices.len() && #[trigger] pixel_at(indices[k] as int, width).1 == r.min_y
    &&& exists|k: int| 0 <= k < indices.len() && #[trigger] pixel_at(indices[k] as int, width).1 + 1 == r.max_y
}

/// The rectangle to redraw after the pixels at `indices` of a `width`-wide
/// image changed: the smallest one holding them, none when nothing changed.
pub fn pixel_bounds(indices: &[usize], width: usize) -> (r: Option<DirtyRect>)
    requires
        width > 0,
        forall|k: int| 0 <= k < indices@.len() ==> indices@[k] < usize::MAX,
    ensures
        indices@.len() == 0 <==> r is None,
        r matches Some(b) ==> bounds_pixels(b, indices@, width as int),
{
    if indices.len() == 0 {
        return None;
    }
    let first = indices[0];
    let ghost w = width as int;
    let mut rect = DirtyRect::new(first % width, first / width, first % width + 1, first / width + 1);
    let ghost mut ax: int = 0;
    let ghost mut bx: int = 0;
    let ghost mut ay: int = 0;
    let ghost mut by: int = 0;
    let mut k: usize = 1;
    assert(pixel_at(indices@[0] as int, w) == ((first % width) as int, (first / width) as int));
    while k < indices.len()
        invariant
            1 <= k <= indices@.len(),
            width > 0,
            w == width,
            forall|q: int| 0 <= q < indices@.len() ==> indices@[q] < usize::MAX,
            forall|q: int| 0 <= q < k ==> rect.contains(#[trigger] pixel_at(indices@[q] as int, w).0, pixel_at(indices@[q] as int, w).1),
            0 <= ax < k && pixel_at(indices@[ax] as int, w).0 == rect.min_x,
            0 <= bx < k && pixel_at(indices@[bx] as int, w).0 + 1 == rect.max_x,
            0 <= ay < k && pixel_at(indices@[ay] as int, w).1 == rect.min_y,
            0 <= by < k && pixel_at(indices@[by] as int, w).1 + 1 == rect.max_y,
        decreases indices@.len() - k,
    {
        let i = indices[k];
        let x = i % width;
        let y = i / width;
        assert(y <= i) by (nonlinear_arith) requires y == i / width, width > 0;
        assert(pixel_at(i as int, w) == (x as int, y as int));
        if x < rect.min_x { rect.min_x = x; proof { ax = k as int; } }
        if y < rect.min_y { rect.min_y = y; proof { ay = k as int; } }
        if x + 1 > rect.max_x { rect.max_x = x + 1; proof { bx = k as int; } }
        if y + 1 > rect.max_y { rect.max_y = y + 1; proof { by = k as int; } }
        k += 1;
    }
    Some(rect)
}

/// Whether bit `b` of `word` is set.
pub open spec fn bit_set(word: u64, b: u64) -> bool {
    (word >> b) & 1u64 == 1u64
}

proof fn lemma_set_bit(w: u64, b: u64, c: u64)
    requires
        b < 64,
        c < 64,
    ensures
        bit_set(w | (1u64 << b), c) == (c == b || bit_set(w, c)),
        (w & (1u64 << b) != 0u64) == bit_set(w, b),
        !bit_set(0u64, c),
{
    assert(((w | (1u64 << b)) >> c) & 1u64 == 1u64 <==> (c == b || (w >> c) & 1u64 == 1u64)) by (bit_vector)
        requires b < 64, c < 64;
    assert((w & (1u64 << b) != 0u64) == ((w >> b) & 1u64 == 1u64)) by (bit_vector)
        requires b < 64;
    assert((0u64 >> c) & 1u64 != 1u64) by (bit_vector);
}

/// The pixels that one edit changes, each remembered once with its state
/// from before the edit, the layer the edit belongs to, and the layer's
/// vector paths from before the edit.
pub struct EditTransaction<S, V> {
    remembered: Vec<u64>,
    vectors_before: Option<V>,
    layer_id: Option<u64>,
    before: Vec<(usize, S)>,
}

impl<S: Copy, V: Clone> EditTransaction<S, V> {
    /// The remembered pixels with their states before the edit, in the
    /// order they were first touched.
    pub closed spec fn captured(&self) -> Seq<(usize, S)> {
        self.before@
    }

    /// The layer the edit belongs to.
    pub closed spec fn owner(&self) -> Option<u64> {
        self.layer_id
    }

    /// The layer's vector paths from before the edit.
    pub closed spec fn snapshot(&self) -> Option<V> {
        self.vectors_before
    }

    /// How many pixels the record of touched pixels covers.
    pub closed spec fn capacity(&self) -> nat {
        (self.remembered@.len() * 64) as nat
    }

    /// Whether pixel `i` is marked as touched.
    pub closed spec fn marked(&self, i: int) -> bool {
        0 <= i < self.capacity() && bit_set(self.remembered@[i / 64], (i % 64) as u64)
    }

    /// Whether pixel `i` has been remembered.
    pub open spec fn holds(&self, i: int) -> bool {
        exists|k: int| 0 <= k < self.captured().len() && #[trigger] self.captured()[k].0 == i
    }

    /// Well formed: a pixel is marked exactly when it is remembered, no
    /// pixel is remembered twice, and every remembered pixel is covered.
    pub open spec fn wf(&self) -> bool {
        &&& forall|i: int| #[trigger] self.marked(i) <==> self.holds(i)
        &&& forall|k: int, l: int| 0 <= k < l < self.captured().len() ==> self.captured()[k].0 != self.captured()[l].0
        &&& forall|k: int| 0 <= k < self.captured().len() ==> #[trigger] self.captured()[k].0 < self.capacity()
        &&& forall|k: int| 0 <= k < self.captured().len() ==> #[trigger] self.captured()[k].0 < usize::MAX
    }

    /// An edit that has touched nothing yet.
    pub fn new() -> (t: Self)
        ensures
            t.wf(),
            t.captured() == Seq::<(usize, S)>::empty(),
            t.owner() is None,
            t.snapshot() is None,
            t.capacity() == 0,
    {
        let t = EditTransaction { remembered: Vec::new(), vectors_before: None, layer_id: None, before: Vec::new() };
        assert(t.captured() =~= Seq::<(usize, S)>::empty());
        t
    }

    /// Whether the edit has touched no pixel.
    pub fn is_empty(&self) -> (b: bool)
        ensures
            b == (self.captured().len() == 0),
    {
        self.before.len() == 0
    }

    /// Remember pixel `index` of a `pixel_count`-pixel drawing, whose state
    /// is `state`, on layer `layer_id` with vector paths `vectors`, unless it
    /// is remembered already: only its state from before the edit is kept.
    pub fn remember(&mut self, index: usize, pixel_count: usize, layer_id: u64, state: S, vectors: &V)
        requires
            old(self).wf(),
            index < pixel_count,
            old(self).capacity() > 0 ==> index < old(self).capacity(),
        ensures
            final(self).wf(),
            final(self).capacity() == if old(self).capacity() == 0 { 64 * ((pixel_count as int + 63) / 64) } else { old(self).capacity() as int },
            old(self).holds(index as int) ==> final(self).captured() == old(self).captured()
                && final(self).owner() == old(self).owner() && final(self).snapshot() == old(self).snapshot(),
            !old(self).holds(index as int) ==> final(self).captured() == old(self).captured().push((index, state))
                && final(self).owner() == (if old(self).owner() is None { Some(layer_id) } else { old(self).owner() })
                && (old(self).snapshot() is Some ==> final(self).snapshot() == old(self).snapshot())
                && (old(self).snapshot() is None ==> (final(self).snapshot() matches Some(v) && cloned(*vectors, v))),
    {
        if self.remembered.len() == 0 {
            let words = pixel_count / 64 + if pixel_count % 64 == 0 { 0 } else { 1 };
            let mut r: Vec<u64> = Vec::new();
            let mut k: usize = 0;
            while k < words
                invariant
                    k <= words,
                    r@.len() == k,
                    forall|q: int| 0 <= q < k ==> r@[q] == 0u64,
                decreases words - k,
            {
                r.push(0);
                k += 1;
            }
            proof {
                assert(old(self).captured().len() == 0) by {
                    if old(self).captured().len() > 0 {
                        assert(old(self).captured()[0].0 < old(self).capacity());
                    }
                }
                assert((pixel_count as int + 63) / 64 == words as int);
            }
            self.remembered = r;
            proof {
                assert forall|i: int| #[trigger] self.marked(i) <==> self.holds(i) by {
                    if self.marked(i) {
                        lemma_set_bit(0u64, 0u64, (i % 64) as u64);
                    }
                }
            }
        }
        assert(self.wf());
        let ghost before = *self;
        let word = index / 64;
        let b = (index % 64) as u64;
        let bit = 1u64 << b;
        proof {
            lemma_set_bit(self.remembered@[word as int], b, b);
            assert(index as int / 64 == word as int && index as int % 64 == b as int);
        }
        if self.remembered[word] & bit != 0 {
            assert(self.marked(index as int));
            return;
        }
        assert(!bit_set(self.remembered@[word as int], b));
        assert(!self.marked(index as int));
        assert(!self.holds(index as int));
        let w = self.remembered[word] | bit;
        self.remembered.set(word, w);
        if self.vectors_before.is_none() {
            let v = vectors.clone();
            self.vectors_before = Some(v);
        }
        if self.layer_id.is_none() {
            self.layer_id = Some(layer_id);
        }
        self.before.push((index, state));
        proof {
            assert(self.captured() == before.captured().push((index, state)));
            assert forall|i: int| #[trigger] self.marked(i) == (before.marked(i) || i == index as int) by {
                if 0 <= i < self.capacity() {
                    let q = i / 64;
                    let c = (i % 64) as u64;
                    if q == word as int {
                        lemma_set_bit(before.remembered@[q], b, c);
                        assert((c == b) == (i == index as int));
                    } else {
                        assert(self.remembered@[q] == before.remembered@[q]);
                    }
                }
            }
            Self::lemma_mark_new(before, *self, index, state);
        }
    }

    proof fn lemma_mark_new(before: Self, after: Self, index: usize, state: S)
        requires
            before.wf(),
            !before.holds(index as int),
            index < before.capacity(),
            index < usize::MAX,
            after.capacity() == before.capacity(),
            after.captured() == before.captured().push((index, state)),
            forall|i: int| #[trigger] after.marked(i) == (before.marked(i) || i == index as int),
        ensures
            after.wf(),
    {
        let n = before.captured().len() as int;
        assert forall|i: int| #[trigger] after.marked(i) <==> after.holds(i) by {
            assert(before.marked(i) == before.holds(i));
            if i == index as int {
                assert(after.captured()[n].0 == index);
            } else {
                if before.holds(i) {
                    let k = choose|k: int| 0 <= k < before.captured().len() && #[trigger] before.captured()[k].0 == i;
                    assert(after.captured()[k].0 == i);
                }
                if after.holds(i) {
                    let k = choose|k: int| 0 <= k < after.captured().len() && #[trigger] after.captured()[k].0 == i;
                    assert(k < n);
                    assert(before.captured()[k].0 == i);
                }
            }
        }
        assert forall|k: int, l: int| 0 <= k < l < after.captured().len() implies after.captured()[k].0 != after.captured()[l].0 by {
            if l == n {
                if before.captured()[k].0 == index {
                    assert(before.holds(index as int));
                }
            } else {
                assert(before.captured()[k].0 != before.captured()[l].0);
            }
        }
        assert forall|k: int| 0 <= k < after.captured().len() implies #[trigger] after.captured()[k].0 < after.capacity()
            && after.captured()[k].0 < usize::MAX by {
            if k < n {
                assert(before.captured()[k].0 < before.capacity());
                assert(before.captured()[k].0 < usize::MAX);
            }
        }
    }

    /// Undo the edit in place, when it belongs to layer `active_layer_id`:
    /// the pixels to restore with their states from before, the vector
    /// paths to restore, and the rectangle of a `width`-wide drawing to
    /// redraw. An edit of another layer restores nothing.
    pub fn rollback(self, active_layer_id: u64, width: usize) -> (r: Option<(Vec<(usize, S)>, Option<V>, Option<DirtyRect>)>)
        requires
            self.wf(),
            width > 0,
        ensures
            self.owner() != Some(active_layer_id) <==> r is None,
            r matches Some((restore, vectors, bounds)) ==> {
                &&& restore@ == self.captured()
                &&& vectors == self.snapshot()
                &&& (self.captured().len() == 0 <==> bounds is None)
                &&& (bounds matches Some(rect) ==> bounds_pixels(rect, self.captured().map_values(|p: (usize, S)| p.0), width as int))
            },
    {
        if self.layer_id != Some(active_layer_id) {
            return None;
        }
        let mut indices: Vec<usize> = Vec::new();
        let mut k: usize = 0;
        while k < self.before.len()
            invariant
                self.wf(),
                k <= self.before@.len(),
                indices@ == self.captured().map_values(|p: (usize, S)| p.0).take(k as int),
            decreases self.before@.len() - k,
        {
            assert(self.captured()[k as int].0 < usize::MAX);
            indices.push(self.before[k].0);
            assert(indices@ =~= self.captured().map_values(|p: (usize, S)| p.0).take(k + 1));
            k += 1;
        }
        assert(indices@ =~= self.captured().map_values(|p: (usize, S)| p.0));
        let bounds = pixel_bounds(&indices, width);
        Some((self.before, self.vectors_before, bounds))
    }
}

/// Each pixel is remembered at most once in an edit.
pub proof fn lemma_remembered_once<S: Copy, V: Clone>(t: EditTransaction<S, V>, k: int, l: int)
    requires
        t.wf(),
        0 <= k < l < t.captured().len(),
    ensures
        t.captured()[k].0 != t.captured()[l].0,
{
}

} // verus!
