//! Sparse tile storage for inactive drawing layers: 32 × 32 tiles allocated
//! on demand, so that adding layers does not multiply the memory of a
//! full-resolution canvas.
use vstd::prelude::*;
use std::collections::HashMap;
use vstd::arithmetic::div_mod::{lemma_fundamental_div_mod, lemma_fundamental_div_mod_converse};

verus! {

broadcast use vstd::std_specs::hash::group_hash_axioms;

/// The side of a tile, in pixels.
pub const TILE_SIDE: usize = 32;

/// The number of tile columns of a `width`-wide canvas.
pub open spec fn tile_columns(width: int) -> int {
    (width + 31) / 32
}

/// The tile holding pixel `index` of a `width`-wide canvas, and the pixel's
/// place inside that tile, row by row.
pub open spec fn tile_location(width: int, index: int) -> (int, int) {
    let x = index % width;
    let y = index / width;
    ((y / 32) * tile_columns(width) + x / 32, (y % 32) * 32 + x % 32)
}

/// The pixels of a `width` × `height` canvas, each a `T`, stored by tile;
/// pixels of tiles never written hold `blank`.
pub struct SparseTiles<T> {
    width: usize,
    height: usize,
    blank: T,
    tiles: HashMap<usize, Vec<T>>,
}

impl<T: Copy> SparseTiles<T> {
    pub closed spec fn spec_width(&self) -> int {
        self.width as int
    }

    pub closed spec fn spec_height(&self) -> int {
        self.height as int
    }

    pub closed spec fn spec_blank(&self) -> T {
        self.blank
    }

    /// The number of tiles in store.
    pub closed spec fn tile_count(&self) -> nat {
        self.tiles@.len()
    }

    /// The ids of the tiles in store.
    pub closed spec fn tile_ids(&self) -> Set<usize> {
        self.tiles@.dom()
    }

    /// Whether the tile holding pixel `index` is in store.
    pub closed spec fn tile_allocated(&self, index: int) -> bool {
        self.tiles@.contains_key(tile_location(self.width as int, index).0 as usize)
    }

    /// The value of pixel `index`.
    pub closed spec fn value_at(&self, index: int) -> T {
        let (t, o) = tile_location(self.width as int, index);
        if self.tiles@.contains_key(t as usize) { self.tiles@[t as usize]@[o] } else { self.blank }
    }

    /// Well formed: the pixel count fits in memory, and every tile in
    /// store holds 32 × 32 pixels.
    pub closed spec fn wf(&self) -> bool {
        &&& self.width * self.height <= usize::MAX
        &&& self.tiles@.dom().finite()
        &&& forall|t: usize| #[trigger] self.tiles@.contains_key(t) ==> self.tiles@[t]@.len() == 1024
    }

    /// The values of all pixels, row by row.
    pub open spec fn cells(&self) -> Seq<T> {
        Seq::new((self.spec_width() * self.spec_height()) as nat, |i: int| self.value_at(i))
    }

    /// An empty `width` × `height` canvas whose pixels hold `blank`.
    pub fn new(width: usize, height: usize, blank: T) -> (s: Self)
        requires
            width * height <= usize::MAX,
        ensures
            s.wf(),
            s.spec_width() == width,
            s.spec_height() == height,
            s.spec_blank() == blank,
            s.tile_count() == 0,
            forall|i: int| #[trigger] s.value_at(i) == blank,
    {
        SparseTiles { width, height, blank, tiles: HashMap::new() }
    }

    /// The number of tiles in store.
    pub fn allocated_tile_count(&self) -> (n: usize)
        ensures
            n == self.tile_count(),
    {
        self.tiles.len()
    }

    /// The tile holding pixel `index`, and the pixel's place inside it.
    pub fn location(&self, index: usize) -> (r: (usize, usize))
        requires
            index < self.spec_width() * self.spec_height(),
        ensures
            r.0 as int == tile_location(self.spec_width(), index as int).0,
            r.1 as int == tile_location(self.spec_width(), index as int).1,
            r.0 <= index,
            r.1 < 1024,
    {
        proof {
            lemma_location_bounds(self.width as int, self.height as int, index as int);
        }
        let x = index % self.width;
        let y = index / self.width;
        let columns = self.width / 32 + if self.width % 32 == 0 { 0 } else { 1 };
        proof {
            let w = self.width as int;
            lemma_fundamental_div_mod(w, 32);
            if w % 32 == 0 {
                lemma_fundamental_div_mod_converse(w + 31, 32, w / 32, 31);
            } else {
                lemma_fundamental_div_mod_converse(w + 31, 32, w / 32 + 1, w % 32 - 1);
            }
        }
        ((y / 32) * columns + x / 32, (y % 32) * 32 + x % 32)
    }

    /// The value of pixel `index`.
    pub fn get(&self, index: usize) -> (v: T)
        requires
            self.wf(),
            index < self.spec_width() * self.spec_height(),
        ensures
            v == self.value_at(index as int),
    {
        let (tile_id, offset) = self.location(index);
        match self.tiles.get(&tile_id) {
            Some(tile) => tile[offset],
            None => self.blank,
        }
    }

    /// Whether this store belongs to a `width` × `height` canvas: its size
    /// is that, and it holds no tile outside that canvas.
    pub fn fits(&self, width: usize, height: usize) -> (ok: bool)
        requires
            self.wf(),
        ensures
            ok == (self.spec_width() == width && self.spec_height() == height
                && self.tile_count() <= tile_columns(width as int) * tile_columns(height as int)
                && forall|t: usize| #[trigger] self.tile_ids().contains(t) ==> t < tile_columns(width as int) * tile_columns(height as int)),
    {
        if self.width != width || self.height != height {
            return false;
        }
        let cw = width / 32 + if width % 32 == 0 { 0 } else { 1 };
        let ch = height / 32 + if height % 32 == 0 { 0 } else { 1 };
        proof {
            lemma_fundamental_div_mod(width as int, 32);
            lemma_fundamental_div_mod(height as int, 32);
            lemma_columns(width as int);
            lemma_columns(height as int);
            assert(cw * ch <= width * height) by (nonlinear_arith)
                requires cw <= width, ch <= height, cw >= 0, ch >= 0;
        }
        let total = cw * ch;
        if self.tiles.len() > total {
            return false;
        }
        let mut ok = true;
        let ghost mut outside: usize = 0;
        for k in it: self.tiles.keys()
            invariant
                it.seq().unref().to_set() == self.tiles@.dom(),
                ok == forall|q: int| 0 <= q < it.index() ==> #[trigger] it.seq().unref()[q] < total,
                !ok ==> self.tiles@.dom().contains(outside) && outside >= total,
        {
            if *k >= total {
                proof {
                    assert(it.seq().unref()[it.index() as int] == *k);
                    assert(it.seq().unref().contains(*k));
                }
                ok = false;
                proof {
                    outside = *k;
                }
            }
        }
        proof {
            let dom = self.tiles@.dom();
            assert(dom == self.tile_ids());
            assert(total == tile_columns(width as int) * tile_columns(height as int));
            if ok {
                assert forall|t: usize| #[trigger] dom.contains(t) implies t < total by {}
            } else {
                assert(self.tile_ids().contains(outside));
            }
            assert(self.tiles@.len() == self.tile_count());
        }
        ok
    }

    /// Store `state` at pixel `index`; an `empty` state is not stored where
    /// its tile is not in store yet, since the pixel already reads as blank
    /// there.
    pub fn set(&mut self, index: usize, state: T, empty: bool)
        requires
            old(self).wf(),
            index < old(self).spec_width() * old(self).spec_height(),
        ensures
            final(self).wf(),
            final(self).spec_width() == old(self).spec_width(),
            final(self).spec_height() == old(self).spec_height(),
            final(self).spec_blank() == old(self).spec_blank(),
            empty && !old(self).tile_allocated(index as int) ==> final(self).cells() == old(self).cells()
                && final(self).tile_count() == old(self).tile_count(),
            !(empty && !old(self).tile_allocated(index as int)) ==> final(self).cells() == old(self).cells().update(index as int, state),
    {
        let (tile_id, offset) = self.location(index);
        if empty && !self.tiles.contains_key(&tile_id) {
            return;
        }
        let ghost before = *self;
        let mut tile = match self.tiles.remove(&tile_id) {
            Some(t) => t,
            None => {
                let mut t: Vec<T> = Vec::new();
                let mut k: usize = 0;
                while k < 1024
                    invariant
                        k <= 1024,
                        t@.len() == k,
                        self.blank == before.blank,
                        forall|q: int| 0 <= q < k ==> t@[q] == before.blank,
                    decreases 1024 - k,
                {
                    t.push(self.blank);
                    k += 1;
                }
                t
            },
        };
        let ghost old_tile = tile@;
        proof {
            assert(before.tiles@.contains_key(tile_id) ==> old_tile == before.tiles@[tile_id]@);
            assert(!before.tiles@.contains_key(tile_id) ==> forall|q: int| 0 <= q < 1024 ==> old_tile[q] == before.blank);
            assert(old_tile.len() == 1024);
        }
        tile.set(offset, state);
        self.tiles.insert(tile_id, tile);
        proof {
            let w = self.width as int;
            let n = w * self.height;
            assert(self.tiles@ == before.tiles@.insert(tile_id, tile));
            assert forall|j: int| 0 <= j < n implies #[trigger] self.value_at(j) == before.cells().update(index as int, state)[j] by {
                lemma_location_bounds(w, self.height as int, j);
                let (tj, oj) = tile_location(w, j);
                if j != index {
                    lemma_tiles_keep_pixels_apart(w, self.height as int, j, index as int);
                    if tj == tile_id as int {
                        assert(oj != offset);
                        assert(self.value_at(j) == tile@[oj]);
                        assert(tile@[oj] == old_tile[oj]);
                    } else {
                        assert(self.value_at(j) == before.value_at(j));
                    }
                } else {
                    assert(self.value_at(j) == tile@[offset as int]);
                }
            }
            assert(self.cells() =~= before.cells().update(index as int, state));
        }
    }

    /// Forget every tile: all pixels read as blank again.
    pub fn clear(&mut self)
        requires
            old(self).wf(),
        ensures
            final(self).wf(),
            final(self).spec_width() == old(self).spec_width(),
            final(self).spec_height() == old(self).spec_height(),
            final(self).spec_blank() == old(self).spec_blank(),
            final(self).tile_count() == 0,
            forall|i: int| #[trigger] final(self).value_at(i) == old(self).spec_blank(),
    {
        self.tiles.clear();
    }

    /// Replace the store by the pixels of a dense canvas: `states`, row by
    /// row, of which those marked `empty` are left blank.
    pub fn capture(&mut self, states: &[T], empty: &[bool])
        requires
            old(self).wf(),
            states@.len() == old(self).spec_width() * old(self).spec_height(),
            empty@.len() == states@.len(),
        ensures
            final(self).wf(),
            final(self).spec_width() == old(self).spec_width(),
            final(self).spec_height() == old(self).spec_height(),
            final(self).spec_blank() == old(self).spec_blank(),
            final(self).cells() == Seq::new(states@.len(), |i: int| if empty@[i] { old(self).spec_blank() } else { states@[i] }),
    {
        self.clear();
        let ghost blank = self.blank;
        let n = states.len();
        let mut i: usize = 0;
        while i < n
            invariant
                self.wf(),
                i <= n,
                n == states@.len(),
                n == self.spec_width() * self.spec_height(),
                empty@.len() == n,
                self.spec_width() == old(self).spec_width(),
                self.spec_height() == old(self).spec_height(),
                self.spec_blank() == blank,
                blank == old(self).spec_blank(),
                forall|j: int| 0 <= j < n ==> #[trigger] self.value_at(j) == if j < i && !empty@[j] { states@[j] } else { blank },
            decreases n - i,
        {
            if !empty[i] {
                let ghost before = self.cells();
                self.set(i, states[i], false);
                proof {
                    assert forall|j: int| 0 <= j < n implies #[trigger] self.value_at(j) == if j < i + 1 && !empty@[j] { states@[j] } else { blank } by {
                        assert(self.cells()[j] == before.update(i as int, states@[i as int])[j]);
                    }
                }
            }
            i += 1;
        }
        assert(self.cells() =~= Seq::new(states@.len(), |i: int| if empty@[i] { blank } else { states@[i] }));
    }
}

/// The tile columns of a canvas, computed with a remainder test.
proof fn lemma_columns(w: int)
    requires
        w >= 0,
        w == 32 * (w / 32) + w % 32,
        0 <= w % 32 < 32,
    ensures
        tile_columns(w) == w / 32 + if w % 32 == 0 { 0int } else { 1int },
        tile_columns(w) <= w,
{
    if w % 32 == 0 {
        lemma_fundamental_div_mod_converse(w + 31, 32, w / 32, 31);
    } else {
        lemma_fundamental_div_mod_converse(w + 31, 32, w / 32 + 1, w % 32 - 1);
    }
}

/// Pixel `index` of a `width` × `height` canvas lands in a tile whose id is
/// at most `index`, at a place below 1024.
proof fn lemma_location_bounds(width: int, height: int, index: int)
    requires
        0 <= index < width * height,
        0 <= width,
        0 <= height,
    ensures
        width > 0,
        0 <= tile_location(width, index).0 <= index,
        0 <= tile_location(width, index).1 < 1024,
{
    assert(width > 0 && height > 0) by (nonlinear_arith)
        requires 0 <= index < width * height, width >= 0, height >= 0;
    lemma_fundamental_div_mod(index, width);
    let x = index % width;
    let y = index / width;
    assert(0 <= x < width);
    assert(y >= 0) by (nonlinear_arith)
        requires index >= 0, width > 0, y == index / width;
    let c = tile_columns(width);
    assert(1 <= c <= width);
    assert(0 <= (y / 32) * c <= y * width) by (nonlinear_arith)
        requires 1 <= c <= width, y >= 0;
    assert(index == y * width + x) by (nonlinear_arith)
        requires index == width * y + x;
}

/// Different pixels have different places: no two share a tile cell.
proof fn lemma_location_injective(width: int, height: int, i: int, j: int)
    requires
        0 <= i < width * height,
        0 <= j < width * height,
        0 <= width,
        0 <= height,
        tile_location(width, i) == tile_location(width, j),
    ensures
        i == j,
{
    lemma_location_bounds(width, height, i);
    let c = tile_columns(width);
    lemma_fundamental_div_mod(i, width);
    lemma_fundamental_div_mod(j, width);
    let (xi, yi) = (i % width, i / width);
    let (xj, yj) = (j % width, j / width);
    assert(yi >= 0 && yj >= 0) by (nonlinear_arith)
        requires i >= 0, j >= 0, width > 0, yi == i / width, yj == j / width;
    assert(c >= 1 && xi / 32 < c && xj / 32 < c) by {
        assert(xi < width && xj < width);
    }
    lemma_fundamental_div_mod_converse(tile_location(width, i).0, c, yi / 32, xi / 32);
    lemma_fundamental_div_mod_converse(tile_location(width, j).0, c, yj / 32, xj / 32);
    lemma_fundamental_div_mod_converse(tile_location(width, i).1, 32, yi % 32, xi % 32);
    lemma_fundamental_div_mod_converse(tile_location(width, j).1, 32, yj % 32, xj % 32);
    lemma_fundamental_div_mod(xi, 32);
    lemma_fundamental_div_mod(xj, 32);
    lemma_fundamental_div_mod(yi, 32);
    lemma_fundamental_div_mod(yj, 32);
    assert(xi == xj && yi == yj);
    assert(i == yi * width + xi) by (nonlinear_arith)
        requires i == width * yi + xi;
    assert(j == yj * width + xj) by (nonlinear_arith)
        requires j == width * yj + xj;
}

/// Distinct pixels of a canvas never share a tile cell, so storing one
/// pixel leaves every other as it was.
pub proof fn lemma_tiles_keep_pixels_apart(width: int, height: int, i: int, j: int)
    requires
        0 <= width,
        0 <= height,
        0 <= i < width * height,
        0 <= j < width * height,
        i != j,
    ensures
        tile_location(width, i) != tile_location(width, j),
{
    if tile_location(width, i) == tile_location(width, j) {
        lemma_location_injective(width, height, i, j);
    }
}

} // verus!
