//! Cut-outs of a selection: the rectangle that the inked pixels cover, and
//! the copy of what the selection allows inside it.
use vstd::prelude::*;
use crate::drawing::document::DirtyRect;
use crate::drawing::history::{bounds_pixels, pixel_bounds};

verus! {

/// The indices of the marked pixels, in order.
pub open spec fn marked_indices(marks: Seq<bool>) -> Seq<usize>
    decreases marks.len(),
{
    if marks.len() == 0 {
        Seq::empty()
    } else {
        let rest = marked_indices(marks.drop_last());
        if marks.last() { rest.push((marks.len() - 1) as usize) } else { rest }
    }
}

proof fn lemma_marked_indices(marks: Seq<bool>)
    requires
        marks.len() <= usize::MAX,
    ensures
        forall|k: int| 0 <= k < marked_indices(marks).len() ==> #[trigger] marked_indices(marks)[k] < marks.len(),
        forall|k: int| 0 <= k < marked_indices(marks).len() ==> marks[#[trigger] marked_indices(marks)[k] as int],
        marked_indices(marks).len() == 0 <==> forall|i: int| 0 <= i < marks.len() ==> !#[trigger] marks[i],
    decreases marks.len(),
{
    if marks.len() > 0 {
        let rest = marks.drop_last();
        lemma_marked_indices(rest);
        assert forall|k: int| 0 <= k < marked_indices(rest).len() implies marks[#[trigger] marked_indices(rest)[k] as int] by {
            assert(rest[marked_indices(rest)[k] as int] == marks[marked_indices(rest)[k] as int]);
        }
        if marked_indices(rest).len() == 0 && !marks.last() {
            assert forall|i: int| 0 <= i < marks.len() implies !#[trigger] marks[i] by {
                if i < rest.len() {
                    assert(!rest[i]);
                }
            }
        }
        if marked_indices(rest).len() > 0 {
            let i = marked_indices(rest)[0] as int;
            assert(marks[i]);
        }
    }
}

/// The smallest rectangle of a `width`-wide drawing holding every pixel
/// marked in `inked`, none when no pixel is: where a cut-out of a
/// selection lies.
pub fn capture_bounds(inked: &[bool], width: usize) -> (r: Option<DirtyRect>)
    requires
        width > 0,
    ensures
        r is None <==> forall|i: int| 0 <= i < inked@.len() ==> !#[trigger] inked@[i],
        r matches Some(b) ==> bounds_pixels(b, marked_indices(inked@), width as int),
{
    let mut indices: Vec<usize> = Vec::new();
    let n = inked.len();
    let mut i: usize = 0;
    while i < n
        invariant
            n == inked@.len(),
            i <= n,
            indices@ == marked_indices(inked@.take(i as int)),
        decreases n - i,
    {
        assert(inked@.take(i + 1).drop_last() =~= inked@.take(i as int));
        if inked[i] {
            indices.push(i);
        }
        i += 1;
    }
    assert(inked@.take(n as int) =~= inked@);
    proof {
        lemma_marked_indices(inked@);
    }
    pixel_bounds(&indices, width)
}

/// The pixel at (`x`, `y`) of `rect` in a `width`-wide drawing of
/// `values`: copied where the selection allows it, else `blank`.
pub open spec fn crop_cell<T>(values: Seq<T>, allowed: Seq<bool>, width: int, rect: DirtyRect, blank: T, y: int, x: int) -> T {
    let i = (rect.min_y + y) * width + rect.min_x + x;
    if allowed[i] { values[i] } else { blank }
}

/// The pixels of `rect` in a `width`-wide drawing of `values`, row by row:
/// each one the selection allows (`allowed`) copied, the others `blank`.
pub fn crop<T: Copy>(values: &[T], allowed: &[bool], width: usize, rect: DirtyRect, blank: T) -> (out: Vec<T>)
    requires
        allowed@.len() == values@.len(),
        rect.min_x <= rect.max_x <= width,
        rect.min_y <= rect.max_y,
        rect.max_y * width <= values@.len(),
    ensures
        out@.len() == rect.spec_width() * rect.spec_height(),
        forall|y: int, x: int| 0 <= y < rect.spec_height() && 0 <= x < rect.spec_width() ==>
            #[trigger] out@[y * rect.spec_width() + x] == crop_cell(values@, allowed@, width as int, rect, blank, y, x),
{
    let w = rect.max_x - rect.min_x;
    let h = rect.max_y - rect.min_y;
    let len = values.len();
    let mut out: Vec<T> = Vec::new();
    let mut y: usize = 0;
    while y < h
        invariant
            w == rect.spec_width(),
            h == rect.spec_height(),
            allowed@.len() == values@.len(),
            rect.min_x <= rect.max_x <= width,
            rect.min_y <= rect.max_y,
            rect.max_y * width <= values@.len(),
            values@.len() == len,
            y <= h,
            out@.len() == y * w,
            forall|q: int, x: int| 0 <= q < y && 0 <= x < w ==> #[trigger] out@[q * w + x] == crop_cell(values@, allowed@, width as int, rect, blank, q, x),
        decreases h - y,
    {
        let row = rect.min_y + y;
        proof {
            assert(row * width + width <= rect.max_y * width) by (nonlinear_arith)
                requires row < rect.max_y, width >= 0;
        }
        let ghost start = out@;
        let mut x: usize = 0;
        while x < w
            invariant
                w == rect.spec_width(),
                allowed@.len() == values@.len(),
                rect.min_x <= rect.max_x <= width,
                row == rect.min_y + y,
                row * width + width <= values@.len(),
                values@.len() == len,
                x <= w,
                out@.len() == y * w + x,
                out@.subrange(0, y * w) == start,
                forall|c: int| 0 <= c < x ==> #[trigger] out@[y * w + c] == crop_cell(values@, allowed@, width as int, rect, blank, y as int, c),
            decreases w - x,
        {
            let i = row * width + rect.min_x + x;
            if allowed[i] {
                out.push(values[i]);
            } else {
                out.push(blank);
            }
            proof {
                assert(out@.subrange(0, y * w) =~= start);
                assert(i as int == (rect.min_y + y) * width + rect.min_x + x);
                assert(out@[y * w + x] == crop_cell(values@, allowed@, width as int, rect, blank, y as int, x as int));
            }
            x += 1;
        }
        proof {
            assert forall|q: int, c: int| 0 <= q < y + 1 && 0 <= c < w implies #[trigger] out@[q * w + c] == crop_cell(values@, allowed@, width as int, rect, blank, q, c) by {
                if q < y {
                    assert(q * w + c < y * w) by (nonlinear_arith)
                        requires q < y, c < w, q >= 0;
                    assert(out@[q * w + c] == out@.subrange(0, y * w)[q * w + c]);
                } else {
                    assert(q * w + c == y * w + c);
                }
            }
            assert(out@.len() == (y + 1) * w) by (nonlinear_arith)
                requires out@.len() == y * w + w;
        }
        y += 1;
    }
    assert(out@.len() == w * h) by (nonlinear_arith)
        requires out@.len() == y * w, y == h;
    out
}

} // verus!
