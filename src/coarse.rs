use vstd::prelude::*;
use crate::bitmap::Bitmap;
use crate::geometry::Rect;

verus! {

/// Grey level of a pixel: the sum of its three channels.
pub open spec fn gray_at(bm: &Bitmap, x: int, y: int) -> int {
    let p = bm.pixel(x, y);
    p.r as int + p.g as int + p.b as int
}

pub open spec fn clamp(v: int, hi: int) -> int {
    if v < 0 {
        0
    } else if v > hi {
        hi
    } else {
        v
    }
}

/// Grey level at `(x, y)`, coordinates clamped into the image.
pub open spec fn gray_clamped(bm: &Bitmap, x: int, y: int) -> int {
    gray_at(bm, clamp(x, bm.width - 1), clamp(y, bm.height - 1))
}

/// Eight times the centre minus its eight neighbours.
pub open spec fn laplacian(bm: &Bitmap, x: int, y: int) -> int {
    8 * gray_clamped(bm, x, y) - gray_clamped(bm, x - 1, y - 1) - gray_clamped(bm, x, y - 1)
        - gray_clamped(bm, x + 1, y - 1) - gray_clamped(bm, x - 1, y) - gray_clamped(bm, x + 1, y)
        - gray_clamped(bm, x - 1, y + 1) - gray_clamped(bm, x, y + 1) - gray_clamped(bm, x + 1, y + 1)
}

/// Cell `(cx, cy)` of the half-resolution map is foreground when one of the four
/// pixels of its 2x2 block is brighter than its neighbourhood.
pub open spec fn coarse_fg(bm: &Bitmap, cx: int, cy: int) -> bool {
    laplacian(bm, 2 * cx, 2 * cy) > 0 || laplacian(bm, 2 * cx + 1, 2 * cy) > 0 || laplacian(
        bm,
        2 * cx,
        2 * cy + 1,
    ) > 0 || laplacian(bm, 2 * cx + 1, 2 * cy + 1) > 0
}

/// Grey level of the pixel at `(x, y)`, coordinates clamped into the image.
pub fn get_pixel_gray(image: &Bitmap, x: i64, y: i64) -> (r: u16)
    requires
        image.wf(),
        image.width > 0,
        image.height > 0,
    ensures
        r == gray_clamped(image, x as int, y as int),
{
    let cx: u32 = if x < 0 {
        0
    } else if x > image.width as i64 - 1 {
        image.width - 1
    } else {
        x as u32
    };
    let cy: u32 = if y < 0 {
        0
    } else if y > image.height as i64 - 1 {
        image.height - 1
    } else {
        y as u32
    };
    let p = image.get_pixel(cx, cy);
    p.r as u16 + p.g as u16 + p.b as u16
}

fn laplacian_exec(bm: &Bitmap, x: i64, y: i64) -> (r: i64)
    requires
        bm.wf(),
        bm.width > 0,
        bm.height > 0,
        -1 <= x <= u32::MAX,
        -1 <= y <= u32::MAX,
    ensures
        r == laplacian(bm, x as int, y as int),
{
    8 * get_pixel_gray(bm, x, y) as i64 - get_pixel_gray(bm, x - 1, y - 1) as i64 - get_pixel_gray(
        bm,
        x,
        y - 1,
    ) as i64 - get_pixel_gray(bm, x + 1, y - 1) as i64 - get_pixel_gray(bm, x - 1, y) as i64
        - get_pixel_gray(bm, x + 1, y) as i64 - get_pixel_gray(bm, x - 1, y + 1) as i64
        - get_pixel_gray(bm, x, y + 1) as i64 - get_pixel_gray(bm, x + 1, y + 1) as i64
}

/// `map` is the half-resolution edge map of `bm`: `height / 2` rows of
/// `width / 2` cells, cell `map[cy][cx]` being `coarse_fg(bm, cx, cy)`.
pub open spec fn is_coarse_map(map: Seq<Vec<bool>>, bm: &Bitmap) -> bool {
    &&& map.len() == bm.height / 2
    &&& forall|cy: int|
        0 <= cy < map.len() ==> (#[trigger] map[cy])@.len() == bm.width / 2 && forall|cx: int|
            0 <= cx < bm.width / 2 ==> #[trigger] map[cy]@[cx] == coarse_fg(bm, cx, cy)
}

/// The half-resolution edge map of the image (see `is_coarse_map`).
pub fn coarse_edge_map(image: &Bitmap) -> (r: Vec<Vec<bool>>)
    requires
        image.wf(),
    ensures
        is_coarse_map(r@, image),
{
    let mut r: Vec<Vec<bool>> = Vec::new();
    let cw: u32 = image.width / 2;
    let ch: u32 = image.height / 2;
    let mut cy: u32 = 0;
    while cy < ch
        invariant
            image.wf(),
            cw == image.width / 2,
            ch == image.height / 2,
            cy <= ch,
            r@.len() == cy,
            forall|q: int|
                0 <= q < r@.len() ==> (#[trigger] r@[q])@.len() == cw && forall|cx: int|
                    0 <= cx < cw ==> #[trigger] r@[q]@[cx] == coarse_fg(image, cx, q),
        decreases ch - cy,
    {
        let mut row: Vec<bool> = Vec::new();
        let mut cx: u32 = 0;
        while cx < cw
            invariant
                image.wf(),
                image.height > 0,
                cw == image.width / 2,
                cy < ch,
                ch == image.height / 2,
                cx <= cw,
                row@.len() == cx,
                forall|k: int| 0 <= k < cx ==> #[trigger] row@[k] == coarse_fg(image, k, cy as int),
            decreases cw - cx,
        {
            let x: i64 = 2 * cx as i64;
            let y: i64 = 2 * cy as i64;
            let fg = laplacian_exec(image, x, y) > 0 || laplacian_exec(image, x + 1, y) > 0
                || laplacian_exec(image, x, y + 1) > 0 || laplacian_exec(image, x + 1, y + 1) > 0;
            row.push(fg);
            cx = cx + 1;
        }
        r.push(row);
        proof {
            assert(r@[cy as int]@ == row@);
        }
        cy = cy + 1;
    }
    r
}

/// Foreground cells of row `cy` of the edge map of `bm`, columns `[lo, hi)`.
pub open spec fn row_count(bm: &Bitmap, cy: int, lo: int, hi: int) -> int
    decreases hi - lo,
{
    if hi <= lo {
        0
    } else {
        row_count(bm, cy, lo, hi - 1) + if coarse_fg(bm, hi - 1, cy) { 1int } else { 0int }
    }
}

/// Foreground cells of the edge map of `bm` in columns `[x0, x1)` of rows
/// `[y0, y1)`.
pub open spec fn area_count(bm: &Bitmap, x0: int, x1: int, y0: int, y1: int) -> int
    decreases y1 - y0,
{
    if y1 <= y0 {
        0
    } else {
        area_count(bm, x0, x1, y0, y1 - 1) + row_count(bm, y1 - 1, x0, x1)
    }
}

/// The cells under `b`, in map coordinates, clipped to a `cw` x `ch` map:
/// `(x0, x1, y0, y1)`.
pub open spec fn cell_range(b: Rect, cw: int, ch: int) -> (int, int, int, int) {
    let x0 = b.0 as int / 2;
    let y0 = b.1 as int / 2;
    let x1 = if b.2 as int / 2 < cw { b.2 as int / 2 } else { cw };
    let y1 = if b.3 as int / 2 < ch { b.3 as int / 2 } else { ch };
    (x0, if x1 < x0 { x0 } else { x1 }, y0, if y1 < y0 { y0 } else { y1 })
}

/// More than half of the edge-map cells under `b` are foreground; false when
/// no cell is.
pub open spec fn dense(bm: &Bitmap, b: Rect) -> bool {
    let (x0, x1, y0, y1) = cell_range(b, bm.width as int / 2, bm.height as int / 2);
    2 * area_count(bm, x0, x1, y0, y1) > (x1 - x0) * (y1 - y0)
}

/// Whether more than half of the map cells under `b` are foreground.
pub fn is_dense(map: &Vec<Vec<bool>>, image: &Bitmap, b: Rect) -> (r: bool)
    requires
        is_coarse_map(map@, image),
    ensures
        r == dense(image, b),
{
    let cw: u32 = image.width / 2;
    let ch: u32 = image.height / 2;
    let x0: u32 = b.0 / 2;
    let y0: u32 = b.1 / 2;
    let x1a: u32 = if b.2 / 2 < cw { b.2 / 2 } else { cw };
    let y1a: u32 = if b.3 / 2 < ch { b.3 / 2 } else { ch };
    let x1: u32 = if x1a < x0 { x0 } else { x1a };
    let y1: u32 = if y1a < y0 { y0 } else { y1a };
    let mut count: u64 = 0;
    let mut y: u32 = y0;
    while y < y1
        invariant
            is_coarse_map(map@, image),
            cw == image.width / 2,
            ch == map@.len(),
            x0 <= x1,
            x1 > x0 ==> x1 <= cw,
            y0 <= y <= y1,
            y1 > y0 ==> y1 <= ch,
            count == area_count(image, x0 as int, x1 as int, y0 as int, y as int),
            count <= (y - y0) * 0x1_0000_0000,
        decreases y1 - y,
    {
        let row = &map[y as usize];
        let mut c: u64 = 0;
        let mut x: u32 = x0;
        while x < x1
            invariant
                row@ == map@[y as int]@,
                row@.len() == cw,
                is_coarse_map(map@, image),
                cw == image.width / 2,
                y < map@.len(),
                x0 <= x <= x1,
                x1 > x0 ==> x1 <= cw,
                c == row_count(image, y as int, x0 as int, x as int),
                c <= x - x0,
            decreases x1 - x,
        {
            if row[x as usize] {
                c = c + 1;
            }
            x = x + 1;
        }
        count = count + c;
        y = y + 1;
    }
    let area: u64 = crate::bitmap::area(x1 - x0, y1 - y0);
    2 * (count as u128) > area as u128
}

} // verus!
