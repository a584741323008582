use vstd::prelude::*;
use crate::geometry::{Rect, hull, is_proper, contains, bounded, covered, covers, lemma_concat_bounded};
use crate::bitmap::lemma_index_in_grid;

verus! {

/// Largest difference of top sides for two fragments to share a line.
pub const LINE_ALIGN: u32 = 3;

/// Largest distance between facing sides for two fragments to share a line.
pub const LINE_TOUCH: u32 = 4;

/// Largest run of unmarked columns inside a link span.
pub const LINK_GAP: u32 = 15;

/// Shortest link span kept.
pub const MIN_LINK_LEN: u32 = 50;

pub open spec fn abs_diff(a: int, b: int) -> int {
    if a >= b { a - b } else { b - a }
}

/// Fragment `f` may join the line of fragment `seed`: their tops are within
/// `LINE_ALIGN` and one's right side is within `LINE_TOUCH` of the other's left side.
pub open spec fn aligned(seed: Rect, f: Rect) -> bool {
    abs_diff(seed.1 as int, f.1 as int) <= LINE_ALIGN
        && (abs_diff(seed.2 as int, f.0 as int) <= LINE_TOUCH || abs_diff(f.2 as int, seed.0 as int)
        <= LINE_TOUCH)
}

/// Line labels after handling fragments `[0, k)`, `-1` for none yet, and the
/// number of lines: fragment `i`, if unlabelled, opens a new line; then every
/// unlabelled fragment aligned with fragment `i` joins the line of `i`.
pub open spec fn assign_upto(frags: Seq<Rect>, k: int) -> (Seq<int>, int)
    decreases k,
{
    if k <= 0 {
        (Seq::new(frags.len(), |j: int| -1int), 0)
    } else {
        let (lab, n) = assign_upto(frags, k - 1);
        let i = k - 1;
        let (lab1, n1) = if lab[i] == -1 { (lab.update(i, n), n + 1) } else { (lab, n) };
        (
            Seq::new(
                frags.len(),
                |j: int|
                    if lab1[j] == -1 && aligned(frags[i], frags[j]) {
                        lab1[i]
                    } else {
                        lab1[j]
                    },
            ),
            n1,
        )
    }
}

/// The line label of every fragment and the number of lines.
pub open spec fn line_labels(frags: Seq<Rect>) -> (Seq<int>, int) {
    assign_upto(frags, frags.len() as int)
}

/// Hull of the fragments among `[0, m)` labelled `l`, if any.
pub open spec fn hull_of_label(frags: Seq<Rect>, labels: Seq<int>, l: int, m: int) -> Option<Rect>
    decreases m,
{
    if m <= 0 {
        None
    } else {
        let prev = hull_of_label(frags, labels, l, m - 1);
        if labels[m - 1] == l {
            match prev {
                Some(h) => Some(hull(h, frags[m - 1])),
                None => Some(frags[m - 1]),
            }
        } else {
            prev
        }
    }
}

/// The box of every line: the hull of its fragments, lines in the order they
/// were opened.
pub open spec fn line_boxes(frags: Seq<Rect>) -> Seq<Rect> {
    let (labels, n) = line_labels(frags);
    Seq::new(n as nat, |l: int| hull_of_label(frags, labels, l, frags.len() as int)->Some_0)
}

/// Labels after step `k` are in range, the handled fragments are labelled, and
/// every line has a fragment.
pub open spec fn labels_ok(lab: Seq<int>, n: int, k: int, len: int) -> bool {
    &&& lab.len() == len
    &&& 0 <= n <= k
    &&& forall|j: int| 0 <= j < len ==> -1 <= #[trigger] lab[j] < n
    &&& forall|j: int| 0 <= j < k ==> #[trigger] lab[j] != -1
    &&& forall|l: int| 0 <= l < n ==> #[trigger] has_member(lab, len, l)
}

/// Some fragment carries label `l`.
pub open spec fn has_member(lab: Seq<int>, len: int, l: int) -> bool {
    exists|j: int| 0 <= j < len && #[trigger] lab[j] == l
}

proof fn lemma_assign_ok(frags: Seq<Rect>, k: int)
    requires
        0 <= k <= frags.len(),
    ensures
        labels_ok(assign_upto(frags, k).0, assign_upto(frags, k).1, k, frags.len() as int),
    decreases k,
{
    if k > 0 {
        lemma_assign_ok(frags, k - 1);
        let (lab, n) = assign_upto(frags, k - 1);
        let i = k - 1;
        let (lab1, n1) = if lab[i] == -1 { (lab.update(i, n), n + 1) } else { (lab, n) };
        let (lab2, n2) = assign_upto(frags, k);
        assert(n2 == n1);
        assert forall|l: int| 0 <= l < n1 implies #[trigger] has_member(lab2, frags.len() as int, l) by {
            if l == n && lab[i] == -1 {
                assert(lab2[i] == l);
            } else {
                assert(has_member(lab, frags.len() as int, l));
                let j = choose|j: int| 0 <= j < frags.len() && #[trigger] lab[j] == l;
                assert(lab1[j] == l);
                assert(lab2[j] == l);
            }
        }
    }
}

proof fn lemma_hull_of_label_some(frags: Seq<Rect>, labels: Seq<int>, l: int, m: int, j: int)
    requires
        0 <= j < m <= labels.len(),
        labels[j] == l,
    ensures
        hull_of_label(frags, labels, l, m) is Some,
    decreases m,
{
    if j < m - 1 {
        lemma_hull_of_label_some(frags, labels, l, m - 1, j);
    }
}

fn aligned_exec(seed: &Rect, f: &Rect) -> (r: bool)
    ensures
        r == aligned(*seed, *f),
{
    let dy: u32 = if seed.1 >= f.1 { seed.1 - f.1 } else { f.1 - seed.1 };
    let d1: u32 = if seed.2 >= f.0 { seed.2 - f.0 } else { f.0 - seed.2 };
    let d2: u32 = if f.2 >= seed.0 { f.2 - seed.0 } else { seed.0 - f.2 };
    dy <= LINE_ALIGN && (d1 <= LINE_TOUCH || d2 <= LINE_TOUCH)
}

fn hull_exec(a: &Rect, b: &Rect) -> (r: Rect)
    ensures
        r == hull(*a, *b),
{
    (
        if a.0 <= b.0 { a.0 } else { b.0 },
        if a.1 <= b.1 { a.1 } else { b.1 },
        if a.2 >= b.2 { a.2 } else { b.2 },
        if a.3 >= b.3 { a.3 } else { b.3 },
    )
}

/// The label an entry of `assign_lines`'s result stands for: `usize::MAX` for
/// none.
pub open spec fn label_val(v: usize) -> int {
    if v == usize::MAX { -1 } else { v as int }
}

/// The line label of every fragment (see `assign_upto`) and the number of lines.
pub fn assign_lines(fragments: &Vec<Rect>) -> (r: (Vec<usize>, usize))
    ensures
        r.0@.len() == fragments@.len(),
        forall|j: int| 0 <= j < fragments@.len() ==> label_val(#[trigger] r.0@[j]) == line_labels(fragments@).0[j],
        r.1 == line_labels(fragments@).1,
{
    let ghost frags = fragments@;
    let len = fragments.len();
    let mut labels: Vec<usize> = Vec::new();
    while labels.len() < len
        invariant
            labels@.len() <= len,
            len == frags.len(),
            forall|j: int| 0 <= j < labels@.len() ==> #[trigger] labels@[j] == usize::MAX,
        decreases len - labels@.len(),
    {
        labels.push(usize::MAX);
    }
    let mut n: usize = 0;
    let mut k: usize = 0;
    proof {
        lemma_assign_ok(frags, 0);
    }
    while k < len
        invariant
            len == frags.len(),
            frags == fragments@,
            k <= len,
            labels@.len() == len,
            n as int == assign_upto(frags, k as int).1,
            forall|j: int| 0 <= j < len ==> label_val(#[trigger] labels@[j]) == assign_upto(frags, k as int).0[j],
        decreases len - k,
    {
        proof {
            lemma_assign_ok(frags, k as int);
        }
        let ghost lab = assign_upto(frags, k as int).0;
        let ghost n0 = n as int;
        let ghost lab_step = if lab[k as int] == -1 { lab.update(k as int, n0) } else { lab };
        let i = k;
        if labels[i] == usize::MAX {
            labels.set(i, n);
            n = n + 1;
        }
        let li = labels[i];
        let ghost lab1 = labels@;
        proof {
            assert forall|q: int| 0 <= q < len implies label_val(#[trigger] lab1[q]) == lab_step[q] by {}
        }
        let mut j: usize = 0;
        while j < len
            invariant
                len == frags.len(),
                frags == fragments@,
                i < len,
                labels@.len() == len,
                lab1.len() == len,
                li == lab1[i as int],
                li != usize::MAX,
                j <= len,
                forall|q: int|
                    0 <= q < j ==> #[trigger] labels@[q] == (if lab1[q] == usize::MAX && aligned(frags[i as int], frags[q]) {
                        li
                    } else {
                        lab1[q]
                    }),
                forall|q: int| j <= q < len ==> #[trigger] labels@[q] == lab1[q],
            decreases len - j,
        {
            if labels[j] == usize::MAX && aligned_exec(&fragments[i], &fragments[j]) {
                labels.set(j, li);
            }
            j = j + 1;
        }
        proof {
            assert forall|q: int| 0 <= q < len implies label_val(#[trigger] labels@[q]) == assign_upto(frags, k + 1).0[q] by {
                assert(label_val(lab1[q]) == lab_step[q]);
                assert(label_val(lab1[i as int]) == lab_step[i as int]);
            }
        }
        k = k + 1;
    }
    (labels, n)
}

/// Greedy line assembly: each fragment in turn, if not yet on a line, opens one,
/// and every fragment not yet on a line that is aligned with it (see `aligned`)
/// joins its line. Returns the hull of each line, in the order lines were opened.
pub fn assemble_lines(fragments: &Vec<Rect>) -> (r: Vec<Rect>)
    ensures
        r@ == line_boxes(fragments@),
{
    let ghost frags = fragments@;
    let (labels, n) = assign_lines(fragments);
    let ghost lab = line_labels(frags).0;
    proof {
        lemma_assign_ok(frags, frags.len() as int);
    }
    let mut r: Vec<Rect> = Vec::new();
    let mut l: usize = 0;
    while l < n
        invariant
            frags == fragments@,
            labels@.len() == frags.len(),
            forall|j: int| 0 <= j < frags.len() ==> label_val(#[trigger] labels@[j]) == lab[j],
            lab == line_labels(frags).0,
            n == line_labels(frags).1,
            labels_ok(lab, n as int, frags.len() as int, frags.len() as int),
            n <= frags.len(),
            l <= n,
            r@ == line_boxes(frags).take(l as int),
        decreases n - l,
    {
        let mut h: Option<Rect> = None;
        let mut i: usize = 0;
        while i < fragments.len()
            invariant
                frags == fragments@,
                labels@.len() == frags.len(),
                forall|j: int| 0 <= j < frags.len() ==> label_val(#[trigger] labels@[j]) == lab[j],
                l < n,
                i <= frags.len(),
                h == hull_of_label(frags, lab, l as int, i as int),
            decreases frags.len() - i,
        {
            if labels[i] == l {
                h = match h {
                    Some(g) => Some(hull_exec(&g, &fragments[i])),
                    None => Some(fragments[i]),
                };
            }
            i = i + 1;
        }
        proof {
            assert(has_member(lab, frags.len() as int, l as int));
            let j = choose|j: int| 0 <= j < frags.len() && #[trigger] lab[j] == l as int;
            lemma_hull_of_label_some(frags, lab, l as int, frags.len() as int, j);
        }
        match h {
            Some(g) => {
                r.push(g);
            },
            None => {},
        }
        proof {
            assert(r@ =~= line_boxes(frags).take(l + 1));
        }
        l = l + 1;
    }
    proof {
        assert(line_boxes(frags).take(n as int) =~= line_boxes(frags));
    }
    r
}

/// A line's hull lies in any rectangle holding all its fragments, and is proper
/// when they are.
pub proof fn lemma_hull_of_label_inside(frags: Seq<Rect>, labels: Seq<int>, l: int, m: int, bb: Rect)
    requires
        0 <= m <= frags.len(),
        m <= labels.len(),
        forall|i: int| 0 <= i < frags.len() ==> contains(bb, #[trigger] frags[i]) && is_proper(frags[i]),
    ensures
        hull_of_label(frags, labels, l, m) matches Some(h) ==> contains(bb, h) && is_proper(h),
    decreases m,
{
    if m > 0 {
        lemma_hull_of_label_inside(frags, labels, l, m - 1, bb);
    }
}

/// A marked stretch `[start, last]` holding `count` marked columns is kept when
/// it is at least `MIN_LINK_LEN` long and at least half of it is marked.
pub open spec fn keep_span(start: int, last: int, count: int) -> bool {
    last + 1 - start >= MIN_LINK_LEN && 2 * count >= last + 1 - start
}

pub open spec fn close_span(acc: Seq<(int, int)>, start: int, last: int, count: int) -> Seq<(int, int)> {
    if keep_span(start, last, count) {
        acc.push((start, last + 1))
    } else {
        acc
    }
}

/// Scanning the column marks up to `i`: whether a stretch is open, its first
/// and last marked column, its number of marked columns, and the spans kept so
/// far. A marked column further than `LINK_GAP` unmarked columns from the last
/// one closes the stretch and opens the next.
pub open spec fn link_scan(marks: Seq<bool>, i: int) -> (bool, int, int, int, Seq<(int, int)>)
    decreases i,
{
    if i <= 0 {
        (false, 0, 0, 0, Seq::empty())
    } else {
        let (open, start, last, count, acc) = link_scan(marks, i - 1);
        let p = i - 1;
        if !marks[p] {
            (open, start, last, count, acc)
        } else if !open {
            (true, p, p, 1, acc)
        } else if p - last - 1 <= LINK_GAP {
            (true, start, p, count + 1, acc)
        } else {
            (true, p, p, 1, close_span(acc, start, last, count))
        }
    }
}

/// The kept spans `[start, end)` of marked columns, left to right.
pub open spec fn link_runs(marks: Seq<bool>) -> Seq<(int, int)> {
    let (open, start, last, count, acc) = link_scan(marks, marks.len() as int);
    if open {
        close_span(acc, start, last, count)
    } else {
        acc
    }
}

/// The link boxes of `line` given its column marks: each kept span, at the
/// line's vertical extent.
pub open spec fn link_rects(line: Rect, marks: Seq<bool>) -> Seq<Rect> {
    let runs = link_runs(marks);
    Seq::new(
        runs.len(),
        |k: int| ((line.0 + runs[k].0) as u32, line.1, (line.0 + runs[k].1) as u32, line.3),
    )
}

pub open spec fn spans_in(acc: Seq<(int, int)>, len: int) -> bool {
    forall|k: int| 0 <= k < acc.len() ==> 0 <= (#[trigger] acc[k]).0 < acc[k].1 <= len
}

proof fn lemma_link_scan_bounds(marks: Seq<bool>, i: int)
    requires
        0 <= i <= marks.len(),
    ensures
        ({
            let (open, start, last, count, acc) = link_scan(marks, i);
            &&& open ==> 0 <= start <= last < i && 1 <= count <= last + 1 - start
            &&& spans_in(acc, i)
        }),
    decreases i,
{
    if i > 0 {
        lemma_link_scan_bounds(marks, i - 1);
    }
}

/// Link boxes of one line from its column marks (see `link_rects`).
pub fn link_spans(line: Rect, marks: &Vec<bool>) -> (r: Vec<Rect>)
    requires
        line.0 <= line.2,
        marks@.len() == line.2 - line.0,
    ensures
        r@ == link_rects(line, marks@),
        forall|k: int| 0 <= k < r@.len() ==> line.0 <= (#[trigger] r@[k]).0 < r@[k].2 <= line.2 && r@[k].1 == line.1 && r@[k].3 == line.3,
{
    let ghost m = marks@;
    let len = marks.len();
    let mut open = false;
    let mut start: usize = 0;
    let mut last: usize = 0;
    let mut count: usize = 0;
    let mut spans: Vec<(usize, usize)> = Vec::new();
    let mut i: usize = 0;
    while i < len
        invariant
            m == marks@,
            len == m.len(),
            i <= len,
            ({
                let (o, s, l, c, acc) = link_scan(m, i as int);
                &&& o == open && s == start && l == last && c == count
                &&& acc.len() == spans@.len()
                &&& forall|k: int| 0 <= k < acc.len() ==> #[trigger] acc[k] == (spans@[k].0 as int, spans@[k].1 as int)
            }),
        decreases len - i,
    {
        proof {
            lemma_link_scan_bounds(m, i as int);
        }
        if marks[i] {
            if !open {
                open = true;
                start = i;
                last = i;
                count = 1;
            } else if i - last - 1 <= LINK_GAP as usize {
                last = i;
                count = count + 1;
            } else {
                if last + 1 - start >= MIN_LINK_LEN as usize && count >= (last + 1 - start) - count {
                    spans.push((start, last + 1));
                }
                start = i;
                last = i;
                count = 1;
            }
        }
        i = i + 1;
    }
    proof {
        lemma_link_scan_bounds(m, len as int);
    }
    if open && last + 1 - start >= MIN_LINK_LEN as usize && count >= (last + 1 - start) - count {
        spans.push((start, last + 1));
    }
    let ghost runs = link_runs(m);
    proof {
        assert(runs.len() == spans@.len());
        assert forall|k: int| 0 <= k < runs.len() implies #[trigger] runs[k] == (spans@[k].0 as int, spans@[k].1 as int) by {}
        assert(spans_in(runs, len as int));
    }
    let mut r: Vec<Rect> = Vec::new();
    let mut k: usize = 0;
    while k < spans.len()
        invariant
            line.0 <= line.2,
            len == line.2 - line.0,
            runs == link_runs(m),
            m == marks@,
            runs.len() == spans@.len(),
            spans_in(runs, len as int),
            forall|q: int| 0 <= q < runs.len() ==> #[trigger] runs[q] == (spans@[q].0 as int, spans@[q].1 as int),
            k <= spans@.len(),
            r@ == link_rects(line, m).take(k as int),
        decreases spans@.len() - k,
    {
        let sp = spans[k];
        proof {
            assert(runs[k as int] == (sp.0 as int, sp.1 as int));
        }
        r.push((line.0 + sp.0 as u32, line.1, line.0 + sp.1 as u32, line.3));
        proof {
            assert(r@ =~= link_rects(line, m).take(k + 1));
        }
        k = k + 1;
    }
    proof {
        assert(link_rects(line, m).take(spans@.len() as int) =~= link_rects(line, m));
    }
    r
}

/// Some pixel of column `x` in rows `[y0, y1)` is link-coloured.
pub open spec fn column_marked(mask: Seq<bool>, width: int, x: int, y0: int, y1: int) -> bool {
    exists|y: int| y0 <= y < y1 && #[trigger] mask[y * width + x]
}

/// For each column of `line`, whether a pixel of it inside the line is
/// link-coloured; `mask` holds one flag per pixel, row-major.
pub fn column_marks(mask: &Vec<bool>, width: u32, height: u32, line: Rect) -> (r: Vec<bool>)
    requires
        mask@.len() == width as int * height as int,
        line.0 <= line.2 <= width,
        line.1 <= line.3 <= height,
    ensures
        r@.len() == line.2 - line.0,
        forall|k: int|
            0 <= k < r@.len() ==> #[trigger] r@[k] == column_marked(mask@, width as int, line.0 + k, line.1 as int, line.3 as int),
{
    let mlen: usize = mask.len();
    let mut r: Vec<bool> = Vec::new();
    let mut x: u32 = line.0;
    while x < line.2
        invariant
            mlen == mask@.len(),
            mask@.len() == width as int * height as int,
            line.0 <= x <= line.2 <= width,
            line.1 <= line.3 <= height,
            r@.len() == x - line.0,
            forall|k: int|
                0 <= k < r@.len() ==> #[trigger] r@[k] == column_marked(mask@, width as int, line.0 + k, line.1 as int, line.3 as int),
        decreases line.2 - x,
    {
        let mut found = false;
        let mut y: u32 = line.1;
        while y < line.3
            invariant
                mlen == mask@.len(),
                mask@.len() == width as int * height as int,
                line.0 <= x < line.2 <= width,
                line.1 <= y <= line.3 <= height,
                found ==> column_marked(mask@, width as int, x as int, line.1 as int, line.3 as int),
                !found ==> forall|q: int| line.1 <= q < y ==> !#[trigger] mask@[q * width + x],
            decreases line.3 - y,
        {
            proof {
                lemma_index_in_grid(x as int, y as int, width as int, height as int);
            }
            let idx: usize = (y as u64 * width as u64 + x as u64) as usize;
            if mask[idx] {
                found = true;
                y = line.3;
            } else {
                y = y + 1;
            }
        }
        r.push(found);
        proof {
            assert(r@[r@.len() - 1] == column_marked(mask@, width as int, x as int, line.1 as int, line.3 as int));
        }
        x = x + 1;
    }
    r
}

/// The link boxes of `lines[0..n)`, line after line.
pub open spec fn links_upto(lines: Seq<Rect>, mask: Seq<bool>, width: int, n: int) -> Seq<Rect>
    decreases n,
{
    if n <= 0 {
        Seq::empty()
    } else {
        let line = lines[n - 1];
        links_upto(lines, mask, width, n - 1) + link_rects(
            line,
            Seq::new(
                (line.2 - line.0) as nat,
                |k: int| column_marked(mask, width, line.0 + k, line.1 as int, line.3 as int),
            ),
        )
    }
}

/// The link boxes of every line, line after line (see `link_rects`).
pub fn find_links(lines: &Vec<Rect>, mask: &Vec<bool>, width: u32, height: u32) -> (r: Vec<Rect>)
    requires
        mask@.len() == width as int * height as int,
        forall|i: int| 0 <= i < lines@.len() ==> (#[trigger] lines@[i]).0 <= lines@[i].2 <= width && lines@[i].1 <= lines@[i].3 <= height,
    ensures
        r@ == links_upto(lines@, mask@, width as int, lines@.len() as int),
{
    let mut r: Vec<Rect> = Vec::new();
    let mut i: usize = 0;
    while i < lines.len()
        invariant
            mask@.len() == width as int * height as int,
            forall|q: int| 0 <= q < lines@.len() ==> (#[trigger] lines@[q]).0 <= lines@[q].2 <= width && lines@[q].1 <= lines@[q].3 <= height,
            i <= lines@.len(),
            r@ == links_upto(lines@, mask@, width as int, i as int),
        decreases lines@.len() - i,
    {
        let line = lines[i];
        let marks = column_marks(mask, width, height, line);
        proof {
            assert(marks@ =~= Seq::new(
                (line.2 - line.0) as nat,
                |k: int| column_marked(mask@, width as int, line.0 + k, line.1 as int, line.3 as int),
            ));
        }
        let spans = link_spans(line, &marks);
        let ghost before = r@;
        let mut k: usize = 0;
        while k < spans.len()
            invariant
                r@ == before + spans@.take(k as int),
                k <= spans@.len(),
            decreases spans@.len() - k,
        {
            r.push(spans[k]);
            proof {
                assert(r@ =~= before + spans@.take(k + 1));
            }
            k = k + 1;
        }
        proof {
            assert(spans@.take(spans@.len() as int) =~= spans@);
        }
        i = i + 1;
    }
    r
}

proof fn lemma_link_runs_in(marks: Seq<bool>)
    ensures
        spans_in(link_runs(marks), marks.len() as int),
{
    lemma_link_scan_bounds(marks, marks.len() as int);
}

/// Line boxes of bounded fragments are bounded.
pub proof fn lemma_line_boxes_bounded(frags: Seq<Rect>, w: u32, h: u32)
    requires
        bounded(frags, w, h),
    ensures
        bounded(line_boxes(frags), w, h),
{
    lemma_assign_ok(frags, frags.len() as int);
    let (labels, n) = line_labels(frags);
    let lb = line_boxes(frags);
    assert forall|l: int| 0 <= l < lb.len() implies is_proper(#[trigger] lb[l]) && contains((0u32, 0u32, w, h), lb[l]) by {
        assert(has_member(labels, frags.len() as int, l));
        let j = choose|j: int| 0 <= j < frags.len() && #[trigger] labels[j] == l;
        lemma_hull_of_label_some(frags, labels, l, frags.len() as int, j);
        assert forall|i: int| 0 <= i < frags.len() implies contains((0u32, 0u32, w, h), #[trigger] frags[i]) && is_proper(frags[i]) by {}
        lemma_hull_of_label_inside(frags, labels, l, frags.len() as int, (0u32, 0u32, w, h));
    }
}

/// Link boxes of bounded lines are bounded.
pub proof fn lemma_links_bounded(lines: Seq<Rect>, mask: Seq<bool>, width: int, n: int, w: u32, h: u32)
    requires
        bounded(lines, w, h),
        0 <= n <= lines.len(),
    ensures
        bounded(links_upto(lines, mask, width, n), w, h),
    decreases n,
{
    if n > 0 {
        lemma_links_bounded(lines, mask, width, n - 1, w, h);
        let line = lines[n - 1];
        assert(is_proper(line) && contains((0u32, 0u32, w, h), line));
        let marks = Seq::new(
            (line.2 - line.0) as nat,
            |k: int| column_marked(mask, width, line.0 + k, line.1 as int, line.3 as int),
        );
        lemma_link_runs_in(marks);
        let lr = link_rects(line, marks);
        let runs = link_runs(marks);
        assert forall|k: int| 0 <= k < lr.len() implies is_proper(#[trigger] lr[k]) && contains((0u32, 0u32, w, h), lr[k]) by {
            assert(0 <= runs[k].0 < runs[k].1 <= marks.len());
        }
        lemma_concat_bounded(links_upto(lines, mask, width, n - 1), lr, w, h);
    }
}

proof fn lemma_hull_of_label_holds(frags: Seq<Rect>, labels: Seq<int>, l: int, m: int, j: int)
    requires
        0 <= j < m <= frags.len(),
        m <= labels.len(),
        labels[j] == l,
    ensures
        hull_of_label(frags, labels, l, m) matches Some(h) && contains(h, frags[j]),
    decreases m,
{
    if j < m - 1 {
        lemma_hull_of_label_holds(frags, labels, l, m - 1, j);
    }
}

/// Every fragment lies inside the box of the line it joined.
pub proof fn lemma_lines_cover_fragments(frags: Seq<Rect>)
    ensures
        covers(line_boxes(frags), frags),
        forall|j: int|
            0 <= j < frags.len() ==> contains(line_boxes(frags)[line_labels(frags).0[j]], #[trigger] frags[j]),
{
    lemma_assign_ok(frags, frags.len() as int);
    let (labels, n) = line_labels(frags);
    assert forall|j: int| 0 <= j < frags.len() implies contains(line_boxes(frags)[labels[j]], #[trigger] frags[j]) by {
        assert(labels[j] != -1);
        lemma_hull_of_label_holds(frags, labels, labels[j], frags.len() as int, j);
    }
    assert forall|j: int| 0 <= j < frags.len() implies #[trigger] covered(line_boxes(frags), frags[j]) by {
        assert(contains(line_boxes(frags)[labels[j]], frags[j]));
    }
}

} // verus!
