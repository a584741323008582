use vstd::prelude::*;
use crate::bitmap::{Bitmap, Rgb};

verus! {

/// Pixel `(x, y)` lies on the outline of the box with corners `(min_x, min_y)`
/// and `(max_x, max_y)`, both inclusive.
pub open spec fn on_outline(x: int, y: int, b: (usize, usize, usize, usize)) -> bool {
    &&& b.0 <= x <= b.2
    &&& b.1 <= y <= b.3
    &&& (x == b.0 || x == b.2 || y == b.1 || y == b.3)
}

/// Some box of `boxes` has `(x, y)` on its outline.
pub open spec fn on_any_outline(x: int, y: int, boxes: Seq<(usize, usize, usize, usize)>) -> bool {
    exists|k: int| 0 <= k < boxes.len() && on_outline(x, y, #[trigger] boxes[k])
}

/// Draws the one-pixel outline of a box in `color`, corners inclusive; the parts
/// outside the image are skipped and every other pixel keeps its colour.
pub fn draw_box(image: &mut Bitmap, min_x: usize, min_y: usize, max_x: usize, max_y: usize, color: Rgb)
    requires
        old(image).wf(),
    ensures
        final(image).wf(),
        final(image).width == old(image).width,
        final(image).height == old(image).height,
        forall|x: int, y: int|
            0 <= x < old(image).width && 0 <= y < old(image).height ==> #[trigger] final(image).pixel(x, y) == if on_outline(
                x,
                y,
                (min_x, min_y, max_x, max_y),
            ) {
                color
            } else {
                old(image).pixel(x, y)
            },
{
    let ghost b = (min_x, min_y, max_x, max_y);
    let ghost start = *image;
    let w = image.width as usize;
    let h = image.height as usize;
    let mut x: usize = min_x;
    while x <= max_x && x < w
        invariant
            image.wf(),
            image.width == start.width,
            image.height == start.height,
            w == image.width,
            h == image.height,
            b == (min_x, min_y, max_x, max_y),
            min_x <= x,
            x <= w || x == min_x,
            forall|i: int, j: int|
                0 <= i < w && 0 <= j < h ==> #[trigger] image.pixel(i, j) == if on_outline(i, j, b) && i < x {
                    color
                } else {
                    start.pixel(i, j)
                },
        decreases w - x,
    {
        let mut y: usize = min_y;
        while y <= max_y && y < h
            invariant
                image.wf(),
                image.width == start.width,
                image.height == start.height,
                w == image.width,
                h == image.height,
                b == (min_x, min_y, max_x, max_y),
                min_x <= x <= max_x,
                x < w,
                min_y <= y,
                forall|i: int, j: int|
                    0 <= i < w && 0 <= j < h ==> #[trigger] image.pixel(i, j) == if on_outline(i, j, b) && (i < x
                        || (i == x && j < y)) {
                        color
                    } else {
                        start.pixel(i, j)
                    },
            decreases h - y,
        {
            if x == min_x || x == max_x || y == min_y || y == max_y {
                image.put_pixel(x as u32, y as u32, color);
            }
            y = y + 1;
        }
        proof {
            assert forall|i: int, j: int| 0 <= i < w && 0 <= j < h implies #[trigger] image.pixel(i, j) == if on_outline(
                i,
                j,
                b,
            ) && i < x + 1 {
                color
            } else {
                start.pixel(i, j)
            } by {
                if on_outline(i, j, b) && i == x {
                    assert(j < y);
                }
            }
        }
        x = x + 1;
    }
    proof {
        assert forall|i: int, j: int| 0 <= i < w && 0 <= j < h implies #[trigger] image.pixel(i, j) == if on_outline(
            i,
            j,
            b,
        ) {
            color
        } else {
            start.pixel(i, j)
        } by {
            assert(on_outline(i, j, b) ==> i < x);
        }
    }
}

/// Draws the outlines of all `boxes` in `color` (see `draw_box`).
pub fn draw_boxes(image: &mut Bitmap, boxes: &[(usize, usize, usize, usize)], color: Rgb)
    requires
        old(image).wf(),
    ensures
        final(image).wf(),
        final(image).width == old(image).width,
        final(image).height == old(image).height,
        forall|x: int, y: int|
            0 <= x < old(image).width && 0 <= y < old(image).height ==> #[trigger] final(image).pixel(x, y) == if on_any_outline(
                x,
                y,
                boxes@,
            ) {
                color
            } else {
                old(image).pixel(x, y)
            },
{
    let ghost start = *image;
    let mut k: usize = 0;
    while k < boxes.len()
        invariant
            image.wf(),
            image.width == start.width,
            image.height == start.height,
            k <= boxes@.len(),
            forall|x: int, y: int|
                0 <= x < start.width && 0 <= y < start.height ==> #[trigger] image.pixel(x, y) == if on_any_outline(
                    x,
                    y,
                    boxes@.take(k as int),
                ) {
                    color
                } else {
                    start.pixel(x, y)
                },
        decreases boxes@.len() - k,
    {
        let b = boxes[k];
        draw_box(image, b.0, b.1, b.2, b.3, color);
        proof {
            assert forall|x: int, y: int| 0 <= x < start.width && 0 <= y < start.height implies #[trigger] image.pixel(
                x,
                y,
            ) == if on_any_outline(x, y, boxes@.take(k + 1)) {
                color
            } else {
                start.pixel(x, y)
            } by {
                let t = boxes@.take(k + 1);
                assert(t[k as int] == b);
                if on_any_outline(x, y, boxes@.take(k as int)) {
                    let q = choose|q: int| 0 <= q < k && on_outline(x, y, #[trigger] boxes@.take(k as int)[q]);
                    assert(t[q] == boxes@.take(k as int)[q]);
                }
                if on_any_outline(x, y, t) {
                    let q = choose|q: int| 0 <= q < k + 1 && on_outline(x, y, #[trigger] t[q]);
                    if q < k {
                        assert(boxes@.take(k as int)[q] == t[q]);
                    }
                }
            }
        }
        k = k + 1;
    }
    proof {
        assert(boxes@.take(boxes@.len() as int) =~= boxes@);
    }
}

} // verus!
