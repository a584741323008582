use vstd::prelude::*;
use crate::bitmap::Bitmap;
use crate::edges::{Direction, all_of_color, is_all_of_color};
use crate::geometry::{Rect, contains, is_proper};

verus! {

/// A flat gap wider than this splits a text box.
pub const GAP_WIDTH: u32 = 10;

/// Column `x` is one colour over rows `[y0, y1)`.
pub open spec fn col_flat(bm: &Bitmap, x: int, y0: int, y1: int) -> bool {
    all_of_color(bm.col(x), y0, y1, bm.pixel(x, y0))
}

/// Row `y` is one colour over columns `[x0, x1)`.
pub open spec fn row_flat(bm: &Bitmap, y: int, x0: int, x1: int) -> bool {
    all_of_color(bm.row(y), x0, x1, bm.pixel(x0, y))
}

/// `t` is `b` with its flat padding removed: the outer columns of `b` up to the
/// first and from the last non-flat one are dropped, and the outer rows up to
/// the first and from the last non-flat one, each row judged over the full
/// width of `b`.
pub open spec fn is_trim_of(bm: &Bitmap, b: Rect, t: Rect) -> bool {
    &&& b.0 <= t.0 < t.2 <= b.2
    &&& b.1 <= t.1 < t.3 <= b.3
    &&& forall|x: int| b.0 <= x < t.0 ==> #[trigger] col_flat(bm, x, b.1 as int, b.3 as int)
    &&& !col_flat(bm, t.0 as int, b.1 as int, b.3 as int)
    &&& forall|x: int| t.2 <= x < b.2 ==> #[trigger] col_flat(bm, x, b.1 as int, b.3 as int)
    &&& !col_flat(bm, t.2 - 1, b.1 as int, b.3 as int)
    &&& forall|y: int| b.1 <= y < t.1 ==> #[trigger] row_flat(bm, y, b.0 as int, b.2 as int)
    &&& !row_flat(bm, t.1 as int, b.0 as int, b.2 as int)
    &&& forall|y: int| t.3 <= y < b.3 ==> #[trigger] row_flat(bm, y, b.0 as int, b.2 as int)
    &&& !row_flat(bm, t.3 - 1, b.0 as int, b.2 as int)
}

/// Nothing is left of `b` once its flat padding is removed.
pub open spec fn trims_away(bm: &Bitmap, b: Rect) -> bool {
    !exists|t: Rect| is_trim_of(bm, b, t)
}

/// The trimmed box, if any is left.
pub open spec fn trim_of(bm: &Bitmap, b: Rect) -> Option<Rect> {
    if trims_away(bm, b) {
        None
    } else {
        Some(choose|t: Rect| is_trim_of(bm, b, t))
    }
}

/// The function `trim_of(bm, _)`.
pub open spec fn trim_fn(bm: &Bitmap) -> spec_fn(Rect) -> Option<Rect> {
    |b: Rect| trim_of(bm, b)
}

/// Every box trimmed, in order, the boxes of which nothing is left dropped.
pub open spec fn trimmed_all(bm: &Bitmap, s: Seq<Rect>) -> Seq<Rect> {
    s.filter_map(trim_fn(bm))
}

/// Every box that trimming keeps lies in one of the boxes it came from, and is
/// proper.
pub proof fn lemma_trimmed_within(bm: &Bitmap, s: Seq<Rect>)
    ensures
        forall|k: int|
            0 <= k < trimmed_all(bm, s).len() ==> is_proper(#[trigger] trimmed_all(bm, s)[k]) && exists|i: int|
                0 <= i < s.len() && contains(s[i], trimmed_all(bm, s)[k]),
{
    let r = trimmed_all(bm, s);
    assert forall|k: int| 0 <= k < r.len() implies is_proper(#[trigger] r[k]) && exists|i: int|
        0 <= i < s.len() && contains(s[i], r[k]) by {
        assert(r.contains(r[k]));
        s.lemma_filter_map_contains(trim_fn(bm), r[k]);
        let t = choose|t: Rect| #[trigger] s.contains(t) && trim_fn(bm)(t) == Some(r[k]);
        let i = choose|i: int| 0 <= i < s.len() && s[i] == t;
        lemma_trim_within(bm, t);
    }
}

/// A box has at most one trim.
pub proof fn lemma_trim_unique(bm: &Bitmap, b: Rect, t: Rect, u: Rect)
    requires
        is_trim_of(bm, b, t),
        is_trim_of(bm, b, u),
    ensures
        t == u,
{
    if t.0 < u.0 {
        assert(col_flat(bm, t.0 as int, b.1 as int, b.3 as int));
    }
    if u.0 < t.0 {
        assert(col_flat(bm, u.0 as int, b.1 as int, b.3 as int));
    }
    if t.2 < u.2 {
        assert(col_flat(bm, u.2 - 1, b.1 as int, b.3 as int));
    }
    if u.2 < t.2 {
        assert(col_flat(bm, t.2 - 1, b.1 as int, b.3 as int));
    }
    assert(t.0 == u.0 && t.2 == u.2);
    if t.1 < u.1 {
        assert(row_flat(bm, t.1 as int, b.0 as int, b.2 as int));
    }
    if u.1 < t.1 {
        assert(row_flat(bm, u.1 as int, b.0 as int, b.2 as int));
    }
    if t.3 < u.3 {
        assert(row_flat(bm, u.3 - 1, b.0 as int, b.2 as int));
    }
    if u.3 < t.3 {
        assert(row_flat(bm, t.3 - 1, b.0 as int, b.2 as int));
    }
}

/// A trimmed box lies inside the box it came from.
pub proof fn lemma_trim_within(bm: &Bitmap, b: Rect)
    requires
        trim_of(bm, b) is Some,
    ensures
        contains(b, trim_of(bm, b)->Some_0),
        is_proper(trim_of(bm, b)->Some_0),
{
}

fn column_flat(bm: &Bitmap, x: u32, y0: u32, y1: u32) -> (r: bool)
    requires
        bm.wf(),
        x < bm.width,
        y0 < y1 <= bm.height,
    ensures
        r == col_flat(bm, x as int, y0 as int, y1 as int),
{
    is_all_of_color(bm, Direction::Vertical, x, y0, y1, bm.get_pixel(x, y0))
}

fn row_is_flat(bm: &Bitmap, y: u32, x0: u32, x1: u32) -> (r: bool)
    requires
        bm.wf(),
        y < bm.height,
        x0 < x1 <= bm.width,
    ensures
        r == row_flat(bm, y as int, x0 as int, x1 as int),
{
    is_all_of_color(bm, Direction::Horizontal, y, x0, x1, bm.get_pixel(x0, y))
}

/// Removes the flat padding of one box; `None` when nothing is left.
pub fn trim_box(bm: &Bitmap, b: Rect) -> (r: Option<Rect>)
    requires
        bm.wf(),
        b.2 <= bm.width,
        b.3 <= bm.height,
    ensures
        r == trim_of(bm, b),
{
    if b.0 >= b.2 || b.1 >= b.3 {
        proof {
            assert forall|t: Rect| !is_trim_of(bm, b, t) by {}
        }
        return None;
    }
    let mut l: u32 = b.0;
    while l < b.2 && column_flat(bm, l, b.1, b.3)
        invariant
            bm.wf(),
            b.0 < b.2 <= bm.width,
            b.1 < b.3 <= bm.height,
            b.0 <= l <= b.2,
            forall|x: int| b.0 <= x < l ==> #[trigger] col_flat(bm, x, b.1 as int, b.3 as int),
        decreases b.2 - l,
    {
        l = l + 1;
    }
    if l == b.2 {
        proof {
            assert forall|t: Rect| !is_trim_of(bm, b, t) by {
                if is_trim_of(bm, b, t) {
                    assert(col_flat(bm, t.0 as int, b.1 as int, b.3 as int));
                }
            }
        }
        return None;
    }
    let mut r: u32 = b.2;
    while r > l && column_flat(bm, r - 1, b.1, b.3)
        invariant
            bm.wf(),
            b.0 <= l < b.2 <= bm.width,
            b.1 < b.3 <= bm.height,
            !col_flat(bm, l as int, b.1 as int, b.3 as int),
            l < r <= b.2 || r == l,
            forall|x: int| r <= x < b.2 ==> #[trigger] col_flat(bm, x, b.1 as int, b.3 as int),
        decreases r,
    {
        r = r - 1;
    }
    let mut t: u32 = b.1;
    while t < b.3 && row_is_flat(bm, t, b.0, b.2)
        invariant
            bm.wf(),
            b.0 <= l < r <= b.2 <= bm.width,
            b.1 < b.3 <= bm.height,
            b.1 <= t <= b.3,
            forall|y: int| b.1 <= y < t ==> #[trigger] row_flat(bm, y, b.0 as int, b.2 as int),
        decreases b.3 - t,
    {
        t = t + 1;
    }
    if t == b.3 {
        proof {
            assert forall|u: Rect| !is_trim_of(bm, b, u) by {
                if is_trim_of(bm, b, u) {
                    if u.0 < l {
                        assert(col_flat(bm, u.0 as int, b.1 as int, b.3 as int));
                    }
                    if l < u.0 {
                        assert(col_flat(bm, l as int, b.1 as int, b.3 as int));
                    }
                    if u.2 < r {
                        assert(col_flat(bm, r - 1, b.1 as int, b.3 as int));
                    }
                    if r < u.2 {
                        assert(col_flat(bm, u.2 - 1, b.1 as int, b.3 as int));
                    }
                    assert(row_flat(bm, u.1 as int, b.0 as int, b.2 as int));
                }
            }
        }
        return None;
    }
    let mut bo: u32 = b.3;
    while bo > t && row_is_flat(bm, bo - 1, b.0, b.2)
        invariant
            bm.wf(),
            b.0 <= l < r <= b.2 <= bm.width,
            b.1 <= t < b.3 <= bm.height,
            !row_flat(bm, t as int, b.0 as int, b.2 as int),
            t < bo <= b.3 || bo == t,
            forall|y: int| bo <= y < b.3 ==> #[trigger] row_flat(bm, y, b.0 as int, b.2 as int),
        decreases bo,
    {
        bo = bo - 1;
    }
    let res: Rect = (l, t, r, bo);
    proof {
        assert(is_trim_of(bm, b, res));
        assert(!trims_away(bm, b));
        let c = choose|c: Rect| is_trim_of(bm, b, c);
        lemma_trim_unique(bm, b, c, res);
    }
    Some(res)
}

/// Removes the flat padding of every box, in order, dropping the boxes of which
/// nothing is left.
pub fn remove_box_padding(img: &Bitmap, boxes: Vec<Rect>) -> (r: Vec<Rect>)
    requires
        img.wf(),
        forall|i: int| 0 <= i < boxes@.len() ==> (#[trigger] boxes@[i]).2 <= img.width && boxes@[i].3 <= img.height,
    ensures
        r@ == trimmed_all(img, boxes@),
{
    let ghost f = trim_fn(img);
    let mut r: Vec<Rect> = Vec::new();
    let mut i: usize = 0;
    while i < boxes.len()
        invariant
            img.wf(),
            forall|k: int| 0 <= k < boxes@.len() ==> (#[trigger] boxes@[k]).2 <= img.width && boxes@[k].3 <= img.height,
            i <= boxes@.len(),
            f == (trim_fn(img)),
            r@ == boxes@.take(i as int).filter_map(f),
        decreases boxes@.len() - i,
    {
        proof {
            boxes@.lemma_filter_map_take_succ(f, i as int);
        }
        match trim_box(img, boxes[i]) {
            Some(t) => {
                r.push(t);
            },
            None => {},
        }
        proof {
            assert(r@ =~= boxes@.take(i + 1).filter_map(f));
        }
        i = i + 1;
    }
    proof {
        assert(boxes@.take(boxes@.len() as int) =~= boxes@);
    }
    r
}

/// Scanning the columns of `b` from the left up to `x`: whether a section is
/// open, how many flat columns it has ended with, where it started, and the
/// sections closed so far. A section closes once more than `GAP_WIDTH` flat
/// columns follow in a row, and the next non-flat column opens a new one.
pub open spec fn gap_scan(bm: &Bitmap, b: Rect, x: int) -> (bool, int, int, Seq<Rect>)
    decreases x - b.0,
{
    if x <= b.0 {
        (true, 0, b.0 as int, Seq::empty())
    } else {
        let (open, count, sx, acc) = gap_scan(bm, b, x - 1);
        let c = x - 1;
        if col_flat(bm, c, b.1 as int, b.3 as int) {
            if open {
                if count + 1 > GAP_WIDTH {
                    (false, count + 1, sx, acc.push((sx as u32, b.1, c as u32, b.3)))
                } else {
                    (true, count + 1, sx, acc)
                }
            } else {
                (open, count, sx, acc)
            }
        } else if open {
            (true, 0, sx, acc)
        } else {
            (true, 0, c, acc)
        }
    }
}

/// The sections of `b` between flat gaps wider than `GAP_WIDTH`, left to right,
/// each spanning the rows of `b`.
pub open spec fn gap_sections(bm: &Bitmap, b: Rect) -> Seq<Rect> {
    let (open, count, sx, acc) = gap_scan(bm, b, b.2 as int);
    if open {
        acc.push((sx as u32, b.1, b.2, b.3))
    } else {
        acc
    }
}

/// Every rectangle of `s` is proper and lies in `b`.
pub open spec fn parts_of(s: Seq<Rect>, b: Rect) -> bool {
    forall|k: int| 0 <= k < s.len() ==> is_proper(#[trigger] s[k]) && contains(b, s[k])
}

proof fn lemma_gap_scan_parts(bm: &Bitmap, b: Rect, x: int)
    requires
        is_proper(b),
        b.0 <= x <= b.2,
    ensures
        ({
            let (open, count, sx, acc) = gap_scan(bm, b, x);
            &&& b.0 <= sx <= x
            &&& (x > b.0 && open ==> sx < x)
            &&& 0 <= count <= x - sx
            &&& parts_of(acc, b)
        }),
    decreases x - b.0,
{
    if x > b.0 {
        lemma_gap_scan_parts(bm, b, x - 1);
    }
}

/// The sections of `b` between wide flat gaps (see `gap_sections`).
pub fn split_at_gaps(bm: &Bitmap, b: Rect) -> (r: Vec<Rect>)
    requires
        bm.wf(),
        is_proper(b),
        b.2 <= bm.width,
        b.3 <= bm.height,
    ensures
        r@ == gap_sections(bm, b),
        parts_of(r@, b),
{
    let mut open = true;
    let mut count: u32 = 0;
    let mut sx: u32 = b.0;
    let mut r: Vec<Rect> = Vec::new();
    let mut x: u32 = b.0;
    while x < b.2
        invariant
            bm.wf(),
            is_proper(b),
            b.2 <= bm.width,
            b.3 <= bm.height,
            b.0 <= x <= b.2,
            gap_scan(bm, b, x as int) == (open, count as int, sx as int, r@),
        decreases b.2 - x,
    {
        proof {
            lemma_gap_scan_parts(bm, b, x as int);
        }
        if column_flat(bm, x, b.1, b.3) {
            if open {
                count = count + 1;
                if count > GAP_WIDTH {
                    open = false;
                    r.push((sx, b.1, x, b.3));
                }
            }
        } else {
            count = 0;
            if !open {
                sx = x;
                open = true;
            }
        }
        x = x + 1;
    }
    proof {
        lemma_gap_scan_parts(bm, b, b.2 as int);
    }
    if open {
        r.push((sx, b.1, b.2, b.3));
    }
    r
}

/// The gap sections of `boxes[0..n)`, box after box.
pub open spec fn split_all(bm: &Bitmap, boxes: Seq<Rect>, n: int) -> Seq<Rect>
    decreases n,
{
    if n <= 0 {
        Seq::empty()
    } else {
        split_all(bm, boxes, n - 1) + gap_sections(bm, boxes[n - 1])
    }
}

/// Splits every box at its wide flat gaps, keeping the order.
pub fn split_boxes_at_gaps(bm: &Bitmap, boxes: &Vec<Rect>) -> (r: Vec<Rect>)
    requires
        bm.wf(),
        forall|i: int|
            0 <= i < boxes@.len() ==> is_proper(#[trigger] boxes@[i]) && boxes@[i].2 <= bm.width
                && boxes@[i].3 <= bm.height,
    ensures
        r@ == split_all(bm, boxes@, boxes@.len() as int),
        forall|k: int| 0 <= k < r@.len() ==> is_proper(#[trigger] r@[k]) && exists|i: int| 0 <= i < boxes@.len() && contains(boxes@[i], r@[k]),
{
    let mut r: Vec<Rect> = Vec::new();
    let mut i: usize = 0;
    while i < boxes.len()
        invariant
            bm.wf(),
            forall|q: int|
                0 <= q < boxes@.len() ==> is_proper(#[trigger] boxes@[q]) && boxes@[q].2 <= bm.width
                    && boxes@[q].3 <= bm.height,
            i <= boxes@.len(),
            r@ == split_all(bm, boxes@, i as int),
            forall|k: int| 0 <= k < r@.len() ==> is_proper(#[trigger] r@[k]) && exists|q: int| 0 <= q < boxes@.len() && contains(boxes@[q], r@[k]),
        decreases boxes@.len() - i,
    {
        let parts = split_at_gaps(bm, boxes[i]);
        let ghost before = r@;
        let mut k: usize = 0;
        while k < parts.len()
            invariant
                r@ == before + parts@.take(k as int),
                k <= parts@.len(),
                i < boxes@.len(),
                parts_of(parts@, boxes@[i as int]),
                forall|m: int| 0 <= m < r@.len() ==> is_proper(#[trigger] r@[m]) && exists|q: int| 0 <= q < boxes@.len() && contains(boxes@[q], r@[m]),
            decreases parts@.len() - k,
        {
            r.push(parts[k]);
            proof {
                assert(r@ =~= before + parts@.take(k + 1));
                assert(contains(boxes@[i as int], r@[r@.len() - 1]));
            }
            k = k + 1;
        }
        proof {
            assert(parts@.take(parts@.len() as int) =~= parts@);
        }
        i = i + 1;
    }
    r
}

} // verus!
