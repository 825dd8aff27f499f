//! Lossless quarter turns, mirrors and canvas growth: every sample moves to
//! a new place; none is resampled, merged or lost.
use vstd::prelude::*;
use vstd::arithmetic::div_mod::{lemma_fundamental_div_mod, lemma_fundamental_div_mod_converse};

verus! {

/// Where a quarter turn of a `width` × `height` grid (row-major) sends
/// sample `i`; the turned grid is `height` wide.
pub open spec fn turned_index(width: int, height: int, clockwise: bool, i: int) -> int {
    let x = i % width;
    let y = i / width;
    if clockwise { x * height + height - 1 - y } else { (width - 1 - x) * height + y }
}

/// Where mirroring a `width` × `height` grid left to right (`horizontal`) or
/// top to bottom sends sample `i`.
pub open spec fn mirrored_index(width: int, height: int, horizontal: bool, i: int) -> int {
    let x = i % width;
    let y = i / width;
    if horizontal { y * width + width - 1 - x } else { (height - 1 - y) * width + x }
}

/// Where growing a `width`-wide grid to `new_width`, shifted by `dx`, `dy`,
/// sends sample `i`.
pub open spec fn grown_index(width: int, new_width: int, dx: int, dy: int, i: int) -> int {
    let x = i % width;
    let y = i / width;
    (y + dy) * new_width + x + dx
}

/// A relocation of the samples of a `width` × `height` grid: a quarter turn,
/// a mirror (`reflection`), or a growth of the canvas.
#[derive(Debug, Clone, Copy)]
pub struct QuarterTurn {
    pub width: usize,
    pub height: usize,
    pub clockwise: bool,
    /// `Some(true)` mirrors left to right, `Some(false)` top to bottom.
    pub reflection: Option<bool>,
    /// For a growth: the new width and height, and the shift right and down.
    pub expansion: Option<(usize, usize, usize, usize)>,
}

impl QuarterTurn {
    /// Well formed: the grids fit in memory, and a grown canvas holds the
    /// old one at its shift.
    pub open spec fn wf(&self) -> bool {
        &&& self.width * self.height <= usize::MAX
        &&& match self.expansion {
            Some((w, h, dx, dy)) => self.width + dx <= w && self.height + dy <= h && w * h <= usize::MAX,
            None => true,
        }
    }

    /// The width and height after the relocation.
    pub open spec fn spec_size(&self) -> (int, int) {
        match self.expansion {
            Some((w, h, _, _)) => (w as int, h as int),
            None => if self.reflection is Some { (self.width as int, self.height as int) } else { (self.height as int, self.width as int) },
        }
    }

    /// Where sample `i` goes.
    pub open spec fn spec_index(&self, i: int) -> int {
        match self.expansion {
            Some((w, _, dx, dy)) => grown_index(self.width as int, w as int, dx as int, dy as int, i),
            None => match self.reflection {
                Some(horizontal) => mirrored_index(self.width as int, self.height as int, horizontal, i),
                None => turned_index(self.width as int, self.height as int, self.clockwise, i),
            },
        }
    }

    /// Whether some sample lands on cell `j`.
    pub open spec fn reached(&self, j: int) -> bool {
        exists|i: int| 0 <= i < self.width * self.height && #[trigger] self.spec_index(i) == j
    }

    /// Whether `after` holds the samples of `before` at their new places,
    /// and one and the same value in every cell no sample reached.
    pub open spec fn relocated<T>(&self, before: Seq<T>, after: Seq<T>) -> bool {
        &&& after.len() == self.spec_size().0 * self.spec_size().1
        &&& forall|i: int| 0 <= i < self.width * self.height ==> after[#[trigger] self.spec_index(i)] == before[i]
        &&& forall|j: int, k: int|
            0 <= j < after.len() && 0 <= k < after.len() && !self.reached(j) && !self.reached(k)
                ==> #[trigger] after[j] == #[trigger] after[k]
    }

    /// The sample of the old grid that a growth repeats into cell `j` of the
    /// new grid: the old grid is tiled around its shifted place.
    pub open spec fn tile_source(&self, j: int) -> int {
        match self.expansion {
            Some((w, _, dx, dy)) => {
                let x = j % (w as int);
                let y = j / (w as int);
                ((y - dy) % (self.height as int)) * self.width + (x - dx) % (self.width as int)
            },
            None => j,
        }
    }

    /// A quarter turn of a `width` × `height` grid.
    pub fn new(width: usize, height: usize, clockwise: bool) -> (t: Self)
        ensures
            t.width == width,
            t.height == height,
            t.clockwise == clockwise,
            t.reflection is None,
            t.expansion is None,
    {
        QuarterTurn { width, height, clockwise, reflection: None, expansion: None }
    }

    /// A mirror of a `width` × `height` grid, left to right when
    /// `horizontal`.
    pub fn mirror(width: usize, height: usize, horizontal: bool) -> (t: Self)
        ensures
            t.width == width,
            t.height == height,
            t.clockwise,
            t.reflection == Some(horizontal),
            t.expansion is None,
    {
        let mut out = Self::new(width, height, true);
        out.reflection = Some(horizontal);
        out
    }

    /// Growth of a `width` × `height` canvas to `new_width` × `new_height`,
    /// the old samples shifted right by `dx` and down by `dy`.
    pub fn expand(width: usize, height: usize, new_width: usize, new_height: usize, dx: usize, dy: usize) -> (t: Self)
        ensures
            t.width == width,
            t.height == height,
            t.clockwise,
            t.reflection is None,
            t.expansion == Some((new_width, new_height, dx, dy)),
    {
        let mut out = Self::new(width, height, true);
        out.expansion = Some((new_width, new_height, dx, dy));
        out
    }

    /// Whether this is a growth of the canvas.
    pub fn expanded(&self) -> (b: bool)
        ensures
            b == self.expansion is Some,
    {
        self.expansion.is_some()
    }

    /// The width and height after the relocation.
    pub fn size(&self) -> (s: (usize, usize))
        ensures
            s.0 as int == self.spec_size().0,
            s.1 as int == self.spec_size().1,
    {
        match self.expansion {
            Some((w, h, _, _)) => (w, h),
            None => if self.reflection.is_some() { (self.width, self.height) } else { (self.height, self.width) },
        }
    }

    /// Where sample `i` goes.
    pub fn index(&self, i: usize) -> (j: usize)
        requires
            self.wf(),
            i < self.width * self.height,
        ensures
            j == self.spec_index(i as int),
            j < self.spec_size().0 * self.spec_size().1,
    {
        proof {
            lemma_index_in_range(*self, i as int);
            lemma_cell(i as int, self.width as int, self.height as int);
        }
        let x = i % self.width;
        let y = i / self.width;
        proof {
            let (w, h) = (self.width as int, self.height as int);
            assert(y * w + w <= w * h && (w - 1 - x) * h + y < w * h && x * h + h <= w * h) by (nonlinear_arith)
                requires 0 <= x < w, 0 <= y < h;
        }
        if let Some((w, _, dx, dy)) = self.expansion {
            return (y + dy) * w + x + dx;
        }
        if let Some(horizontal) = self.reflection {
            return if horizontal {
                y * self.width + (self.width - 1 - x)
            } else {
                (self.height - 1 - y) * self.width + x
            };
        }
        if self.clockwise {
            x * self.height + (self.height - 1 - y)
        } else {
            (self.width - 1 - x) * self.height + y
        }
    }
}

impl QuarterTurn {
    /// Move the samples of `values`, a `width` × `height` grid, to their new
    /// places; cells that no sample reaches hold the default value.
    pub fn grid<T: Copy + Default>(&self, values: &mut Vec<T>)
        requires
            self.wf(),
            old(values).len() == self.width * self.height,
        ensures
            self.relocated(old(values)@, final(values)@),
    {
        let ghost before = values@;
        let (w, h) = self.size();
        proof {
            let (a, b) = (self.width as int, self.height as int);
            assert(b * a == a * b) by (nonlinear_arith);
        }
        let n = w * h;
        let blank = T::default();
        let mut rotated: Vec<T> = Vec::new();
        let mut k: usize = 0;
        while k < n
            invariant
                k <= n,
                rotated@.len() == k,
                forall|q: int| 0 <= q < k ==> rotated@[q] == blank,
            decreases n - k,
        {
            rotated.push(blank);
            k += 1;
        }
        let mut i: usize = 0;
        while i < values.len()
            invariant
                self.wf(),
                values@ == before,
                before.len() == self.width * self.height,
                n == self.spec_size().0 * self.spec_size().1,
                rotated@.len() == n,
                i <= before.len(),
                forall|q: int| 0 <= q < i ==> rotated@[#[trigger] self.spec_index(q)] == before[q],
                forall|j: int| 0 <= j < n && !(exists|q: int| 0 <= q < i && #[trigger] self.spec_index(q) == j)
                    ==> rotated@[j] == blank,
            decreases before.len() - i,
        {
            let j = self.index(i);
            proof {
                assert forall|q: int| 0 <= q < i implies #[trigger] self.spec_index(q) != j by {
                    lemma_relocation_is_lossless(*self, q, i as int);
                }
            }
            let ghost earlier = rotated@;
            let v = values[i];
            rotated.set(j, v);
            proof {
                assert(rotated@ == earlier.update(j as int, v));
                assert forall|q: int| 0 <= q < i + 1 implies rotated@[#[trigger] self.spec_index(q)] == before[q] by {
                    if q < i {
                        lemma_relocation_is_lossless(*self, q, i as int);
                        assert(earlier[self.spec_index(q)] == before[q]);
                        assert(self.spec_index(q) != j);
                        lemma_index_in_range(*self, q);
                    } else {
                        assert(q == i);
                        assert(self.spec_index(q) == j);
                        assert(v == before[q]);
                    }
                }
                assert forall|jj: int| 0 <= jj < n && !(exists|q: int| 0 <= q < i + 1 && #[trigger] self.spec_index(q) == jj)
                    implies rotated@[jj] == blank by {
                    assert(self.spec_index(i as int) != jj);
                }
            }
            i += 1;
        }
        proof {
            assert forall|jj: int| 0 <= jj < n && !self.reached(jj) implies rotated@[jj] == blank by {
                if exists|q: int| 0 <= q < i && #[trigger] self.spec_index(q) == jj {
                    let q = choose|q: int| 0 <= q < i && #[trigger] self.spec_index(q) == jj;
                    assert(self.reached(jj));
                }
            }
        }
        *values = rotated;
    }

    /// Like [`QuarterTurn::grid`], except that a growth repeats the old grid
    /// around its shifted place instead of leaving default values.
    pub fn tiled_grid<T: Copy + Default>(&self, values: &mut Vec<T>)
        requires
            self.wf(),
            old(values).len() == self.width * self.height,
            self.expansion is Some ==> self.width > 0 && self.height > 0,
        ensures
            self.expansion is None ==> self.relocated(old(values)@, final(values)@),
            self.expansion matches Some((w, h, _, _)) ==> {
                &&& final(values)@.len() == w * h
                &&& forall|j: int| 0 <= j < w * h ==> #[trigger] final(values)@[j] == old(values)@[self.tile_source(j)]
            },
    {
        let (w, h, dx, dy) = match self.expansion {
            Some(e) => e,
            None => {
                self.grid(values);
                return;
            },
        };
        let ghost before = values@;
        let mut grown: Vec<T> = Vec::new();
        let mut y: usize = 0;
        while y < h
            invariant
                self.wf(),
                self.expansion == Some((w, h, dx, dy)),
                self.width > 0 && self.height > 0,
                values@ == before,
                before.len() == self.width * self.height,
                y <= h,
                grown@.len() == y * w,
                forall|j: int| 0 <= j < grown@.len() ==> #[trigger] grown@[j] == before[self.tile_source(j)],
            decreases h - y,
        {
            let mut x: usize = 0;
            while x < w
                invariant
                    self.wf(),
                    self.expansion == Some((w, h, dx, dy)),
                    self.width > 0 && self.height > 0,
                    values@ == before,
                    before.len() == self.width * self.height,
                    y < h,
                    x <= w,
                    grown@.len() == y * w + x,
                    forall|j: int| 0 <= j < grown@.len() ==> #[trigger] grown@[j] == before[self.tile_source(j)],
                decreases w - x,
            {
                let sx = wrap(x, dx, self.width);
                let sy = wrap(y, dy, self.height);
                proof {
                    let (ww, hh) = (self.width as int, self.height as int);
                    assert(0 <= sy * ww + sx < ww * hh) by (nonlinear_arith)
                        requires 0 <= sx < ww, 0 <= sy < hh;
                    lemma_uncell(x as int, y as int, w as int);
                    assert(self.tile_source(y * w + x) == sy * ww + sx);
                }
                grown.push(values[sy * self.width + sx]);
                x += 1;
            }
            proof {
                assert((y + 1) * w == y * w + w) by (nonlinear_arith);
            }
            y += 1;
        }
        assert(h * w == w * h) by (nonlinear_arith);
        *values = grown;
    }
}

/// `(x - d)` wrapped into `0 .. m`.
fn wrap(x: usize, d: usize, m: usize) -> (r: usize)
    requires
        m > 0,
    ensures
        r as int == (x as int - d as int) % (m as int),
        r < m,
{
    if x >= d {
        (x - d) % m
    } else {
        let r = (d - x) % m;
        proof {
            let (a, mm) = (d as int - x as int, m as int);
            lemma_fundamental_div_mod(a, mm);
            let q = a / mm;
            assert(r as int == a % mm);
            if r == 0 {
                assert(-a == (-q) * mm + 0) by (nonlinear_arith)
                    requires a == mm * q + 0;
                lemma_fundamental_div_mod_converse(-a, mm, -q, 0);
            } else {
                assert(-a == (-q - 1) * mm + (mm - r)) by (nonlinear_arith)
                    requires a == mm * q + r;
                lemma_fundamental_div_mod_converse(-a, mm, -q - 1, mm - r);
            }
        }
        if r == 0 { 0 } else { m - r }
    }
}

/// Sample `i` of a `width` × `height` grid sits at column `i % width` of row
/// `i / width`.
proof fn lemma_cell(i: int, width: int, height: int)
    requires
        0 <= i < width * height,
        width >= 0,
        height >= 0,
    ensures
        width > 0,
        height > 0,
        0 <= i % width < width,
        0 <= i / width < height,
        i == (i / width) * width + i % width,
{
    assert(width > 0 && height > 0) by (nonlinear_arith)
        requires 0 <= i < width * height, width >= 0, height >= 0;
    lemma_fundamental_div_mod(i, width);
    let x = i % width;
    let y = i / width;
    assert(i == y * width + x) by (nonlinear_arith)
        requires i == width * y + x;
    assert(0 <= x < width);
    assert(0 <= y < height) by (nonlinear_arith)
        requires i == y * width + x, 0 <= x < width, 0 <= i < width * height, width > 0;
}

/// Column `x` of row `y` of a `width`-wide grid is sample `y * width + x`.
proof fn lemma_uncell(x: int, y: int, width: int)
    requires
        0 <= x < width,
        0 <= y,
    ensures
        (y * width + x) % width == x,
        (y * width + x) / width == y,
{
    lemma_fundamental_div_mod_converse(y * width + x, width, y, x);
}

/// Every relocated sample lands inside the new grid.
proof fn lemma_index_in_range(t: QuarterTurn, i: int)
    requires
        t.wf(),
        0 <= i < t.width * t.height,
    ensures
        0 <= t.spec_index(i) < t.spec_size().0 * t.spec_size().1,
{
    let w = t.width as int;
    let h = t.height as int;
    lemma_cell(i, w, h);
    let x = i % w;
    let y = i / w;
    match t.expansion {
        Some((nw, nh, dx, dy)) => {
            let (nw, nh, dx, dy) = (nw as int, nh as int, dx as int, dy as int);
            assert(0 <= (y + dy) * nw + x + dx < nw * nh) by (nonlinear_arith)
                requires 0 <= x < w, 0 <= y < h, w + dx <= nw, h + dy <= nh, dx >= 0, dy >= 0;
        },
        None => match t.reflection {
            Some(horizontal) => {
                assert(0 <= y * w + w - 1 - x < w * h) by (nonlinear_arith)
                    requires 0 <= x < w, 0 <= y < h;
                assert(0 <= (h - 1 - y) * w + x < w * h) by (nonlinear_arith)
                    requires 0 <= x < w, 0 <= y < h;
            },
            None => {
                assert(0 <= x * h + h - 1 - y < h * w) by (nonlinear_arith)
                    requires 0 <= x < w, 0 <= y < h;
                assert(0 <= (w - 1 - x) * h + y < h * w) by (nonlinear_arith)
                    requires 0 <= x < w, 0 <= y < h;
            },
        },
    }
}

/// A clockwise quarter turn followed by a counter-clockwise one of the
/// turned grid puts every sample back, and so does the opposite order; a
/// turned sample lies inside the turned grid.
pub proof fn lemma_turn_round_trip(width: int, height: int, i: int)
    requires
        0 <= width,
        0 <= height,
        0 <= i < width * height,
    ensures
        0 <= turned_index(width, height, true, i) < height * width,
        0 <= turned_index(width, height, false, i) < height * width,
        turned_index(height, width, false, turned_index(width, height, true, i)) == i,
        turned_index(height, width, true, turned_index(width, height, false, i)) == i,
{
    lemma_cell(i, width, height);
    let x = i % width;
    let y = i / width;
    let cw = turned_index(width, height, true, i);
    let ccw = turned_index(width, height, false, i);
    assert(cw == x * height + (height - 1 - y));
    assert(ccw == (width - 1 - x) * height + y);
    lemma_uncell(height - 1 - y, x, height);
    lemma_uncell(y, width - 1 - x, height);
    assert(0 <= cw < height * width && 0 <= ccw < height * width) by (nonlinear_arith)
        requires
            0 <= x < width,
            0 <= y < height,
            cw == x * height + (height - 1 - y),
            ccw == (width - 1 - x) * height + y;
}

/// Mirroring twice the same way puts every sample back; a mirrored sample
/// lies inside the grid.
pub proof fn lemma_mirror_round_trip(width: int, height: int, horizontal: bool, i: int)
    requires
        0 <= width,
        0 <= height,
        0 <= i < width * height,
    ensures
        0 <= mirrored_index(width, height, horizontal, i) < width * height,
        mirrored_index(width, height, horizontal, mirrored_index(width, height, horizontal, i)) == i,
{
    lemma_cell(i, width, height);
    let x = i % width;
    let y = i / width;
    let m = mirrored_index(width, height, horizontal, i);
    if horizontal {
        assert(m == y * width + (width - 1 - x));
        lemma_uncell(width - 1 - x, y, width);
    } else {
        assert(m == (height - 1 - y) * width + x);
        lemma_uncell(x, height - 1 - y, width);
    }
    assert(0 <= m < width * height) by (nonlinear_arith)
        requires
            0 <= x < width,
            0 <= y < height,
            horizontal ==> m == y * width + (width - 1 - x),
            !horizontal ==> m == (height - 1 - y) * width + x;
}

/// No two samples land on the same cell: a relocation loses nothing.
pub proof fn lemma_relocation_is_lossless(t: QuarterTurn, i: int, k: int)
    requires
        t.wf(),
        0 <= i < t.width * t.height,
        0 <= k < t.width * t.height,
        i != k,
    ensures
        t.spec_index(i) != t.spec_index(k),
{
    let w = t.width as int;
    let h = t.height as int;
    match t.expansion {
        Some((nw, nh, dx, dy)) => {
            lemma_cell(i, w, h);
            lemma_cell(k, w, h);
            let (nw, dx, dy) = (nw as int, dx as int, dy as int);
            lemma_uncell(i % w + dx, i / w + dy, nw);
            lemma_uncell(k % w + dx, k / w + dy, nw);
            assert(grown_index(w, nw, dx, dy, i) == (i / w + dy) * nw + (i % w + dx));
            assert(grown_index(w, nw, dx, dy, k) == (k / w + dy) * nw + (k % w + dx));
        },
        None => match t.reflection {
            Some(horizontal) => {
                lemma_mirror_round_trip(w, h, horizontal, i);
                lemma_mirror_round_trip(w, h, horizontal, k);
            },
            None => {
                lemma_turn_round_trip(w, h, i);
                lemma_turn_round_trip(w, h, k);
            },
        },
    }
}

/// A quarter turn or a mirror lands some sample on every cell of the new
/// grid: it only reorders the samples.
pub proof fn lemma_turn_reaches_every_cell(t: QuarterTurn, j: int)
    requires
        t.wf(),
        t.expansion is None,
        0 <= j < t.spec_size().0 * t.spec_size().1,
    ensures
        t.reached(j),
{
    let w = t.width as int;
    let h = t.height as int;
    match t.reflection {
        Some(horizontal) => {
            lemma_mirror_round_trip(w, h, horizontal, j);
            let i = mirrored_index(w, h, horizontal, j);
            assert(t.spec_index(i) == j);
        },
        None => {
            lemma_turn_round_trip(h, w, j);
            let i = turned_index(h, w, !t.clockwise, j);
            assert(h * w == w * h) by (nonlinear_arith);
            assert(t.spec_index(i) == j);
        },
    }
}

} // verus!
