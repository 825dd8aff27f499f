//! Layer bookkeeping and invalidation rectangles of a drawing.
use vstd::prelude::*;

verus! {

/// A half-open pixel rectangle `[min_x, max_x) × [min_y, max_y)` that needs
/// to be redrawn.
#[derive(Debug, Clone, Copy, PartialEq, Eq, Structural)]
pub struct DirtyRect {
    pub min_x: usize,
    pub min_y: usize,
    pub max_x: usize,
    pub max_y: usize,
}

/// `a - b`, or zero where `b` exceeds `a`.
pub open spec fn saturating_diff(a: int, b: int) -> int {
    if a > b { a - b } else { 0 }
}

pub open spec fn min_usize(a: usize, b: usize) -> usize {
    if a <= b { a } else { b }
}

pub open spec fn max_usize(a: usize, b: usize) -> usize {
    if a >= b { a } else { b }
}

impl DirtyRect {
    pub open spec fn spec_width(self) -> int {
        saturating_diff(self.max_x as int, self.min_x as int)
    }

    pub open spec fn spec_height(self) -> int {
        saturating_diff(self.max_y as int, self.min_y as int)
    }

    pub open spec fn spec_is_empty(self) -> bool {
        self.spec_width() == 0 || self.spec_height() == 0
    }

    /// Whether the pixel `(x, y)` lies in the rectangle.
    pub open spec fn contains(self, x: int, y: int) -> bool {
        self.min_x <= x < self.max_x && self.min_y <= y < self.max_y
    }

    /// The smallest rectangle whose bounds enclose both bounds.
    pub open spec fn spec_union(self, other: Self) -> Self {
        DirtyRect {
            min_x: min_usize(self.min_x, other.min_x),
            min_y: min_usize(self.min_y, other.min_y),
            max_x: max_usize(self.max_x, other.max_x),
            max_y: max_usize(self.max_y, other.max_y),
        }
    }

    pub fn new(min_x: usize, min_y: usize, max_x: usize, max_y: usize) -> (r: Self)
        ensures
            r == (DirtyRect { min_x, min_y, max_x, max_y }),
    {
        DirtyRect { min_x, min_y, max_x, max_y }
    }

    /// The whole `width` × `height` canvas.
    pub fn full(width: usize, height: usize) -> (r: Self)
        ensures
            r == (DirtyRect { min_x: 0, min_y: 0, max_x: width, max_y: height }),
    {
        Self::new(0, 0, width, height)
    }

    pub fn width(self) -> (w: usize)
        ensures
            w == self.spec_width(),
    {
        if self.max_x >= self.min_x { self.max_x - self.min_x } else { 0 }
    }

    pub fn height(self) -> (h: usize)
        ensures
            h == self.spec_height(),
    {
        if self.max_y >= self.min_y { self.max_y - self.min_y } else { 0 }
    }

    pub fn is_empty(self) -> (b: bool)
        ensures
            b == self.spec_is_empty(),
    {
        self.width() == 0 || self.height() == 0
    }

    pub fn union(self, other: Self) -> (r: Self)
        ensures
            r == self.spec_union(other),
    {
        DirtyRect {
            min_x: if self.min_x <= other.min_x { self.min_x } else { other.min_x },
            min_y: if self.min_y <= other.min_y { self.min_y } else { other.min_y },
            max_x: if self.max_x >= other.max_x { self.max_x } else { other.max_x },
            max_y: if self.max_y >= other.max_y { self.max_y } else { other.max_y },
        }
    }
}

/// A non-empty rectangle has no pixels exactly when it is empty.
pub proof fn lemma_empty_iff_no_pixels(r: DirtyRect)
    ensures
        r.spec_is_empty() <==> !(exists|x: int, y: int| r.contains(x, y)),
{
    if !r.spec_is_empty() {
        assert(r.contains(r.min_x as int, r.min_y as int));
    }
}

/// Union covers every pixel of both operands.
pub proof fn lemma_union_covers(a: DirtyRect, b: DirtyRect, x: int, y: int)
    ensures
        a.contains(x, y) || b.contains(x, y) ==> a.spec_union(b).contains(x, y),
{
}

/// Union is the least rectangle enclosing both operands' bounds.
pub proof fn lemma_union_least(a: DirtyRect, b: DirtyRect, c: DirtyRect)
    requires
        c.min_x <= a.min_x && c.min_y <= a.min_y && a.max_x <= c.max_x && a.max_y <= c.max_y,
        c.min_x <= b.min_x && c.min_y <= b.min_y && b.max_x <= c.max_x && b.max_y <= c.max_y,
    ensures
        ({
            let u = a.spec_union(b);
            c.min_x <= u.min_x && c.min_y <= u.min_y && u.max_x <= c.max_x && u.max_y <= c.max_y
        }),
{
}

/// Union is commutative, associative and idempotent, so the order in which
/// invalidated regions are queued does not change the final region.
pub proof fn lemma_union_algebra(a: DirtyRect, b: DirtyRect, c: DirtyRect)
    ensures
        a.spec_union(b) == b.spec_union(a),
        a.spec_union(b).spec_union(c) == a.spec_union(b.spec_union(c)),
        a.spec_union(a) == a,
{
}


/// How a drawing layer combines with the layers below it.
#[derive(Debug, Clone, Copy, PartialEq, Eq, Structural)]
pub enum BlendMode {
    Normal,
    Multiply,
    Darken,
    Screen,
    Lighten,
    Saturation,
}

impl Default for BlendMode {
    /// Graphite darkens the paper below it, so new layers multiply.
    fn default() -> (m: Self)
        ensures
            m == BlendMode::Multiply,
    {
        BlendMode::Multiply
    }
}

impl BlendMode {
    pub open spec fn spec_label(self) -> Seq<char> {
        match self {
            BlendMode::Normal => "Normal"@,
            BlendMode::Multiply => "Multiply"@,
            BlendMode::Darken => "Darken"@,
            BlendMode::Screen => "Screen"@,
            BlendMode::Lighten => "Lighten"@,
            BlendMode::Saturation => "Saturation"@,
        }
    }

    pub fn label(self) -> (s: &'static str)
        ensures
            s@ == self.spec_label(),
    {
        match self {
            BlendMode::Normal => "Normal",
            BlendMode::Multiply => "Multiply",
            BlendMode::Darken => "Darken",
            BlendMode::Screen => "Screen",
            BlendMode::Lighten => "Lighten",
            BlendMode::Saturation => "Saturation",
        }
    }

    /// Every blend mode, in menu order.
    pub fn all() -> (modes: [BlendMode; 6])
        ensures
            modes@ == seq![BlendMode::Multiply, BlendMode::Normal, BlendMode::Darken,
                BlendMode::Screen, BlendMode::Lighten, BlendMode::Saturation],
    {
        let modes = [BlendMode::Multiply, BlendMode::Normal, BlendMode::Darken,
            BlendMode::Screen, BlendMode::Lighten, BlendMode::Saturation];
        assert(modes@ =~= seq![BlendMode::Multiply, BlendMode::Normal, BlendMode::Darken,
            BlendMode::Screen, BlendMode::Lighten, BlendMode::Saturation]);
        modes
    }
}

/// The opacity of a new layer, and of layers saved before opacity existed.
pub fn full_layer_opacity() -> (o: u8)
    ensures
        o == 255,
{
    255
}

/// The layers picked in the layer panel.
#[derive(Debug, Clone, Default)]
pub struct LayerSelection {
    pub ids: Vec<u64>,
    pub anchor: Option<u64>,
    pub multiple: bool,
}

} // verus!
