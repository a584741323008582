use vstd::prelude::*;
use crate::bitmap::{Bitmap, Rgb};
use rayon::iter::{IntoParallelIterator, ParallelIterator};

verus! {

/// Shortest horizontal run kept, exclusive: runs must be longer than this.
pub const MIN_HORIZONTAL_RUN: u32 = 40;

/// Shortest vertical run kept, exclusive: runs must be longer than this.
pub const MIN_VERTICAL_RUN: u32 = 20;

/// Runs longer than this tolerate `WIDE_RUN_TOLERANCE` mismatching pixels.
pub const WIDE_RUN: u32 = 100;

pub const WIDE_RUN_TOLERANCE: u32 = 4;

pub const NARROW_RUN_TOLERANCE: u32 = 1;

/// How many neighbouring lines the deduplication looks at on one side.
pub const DEDUP_WINDOW: usize = 8;

/// Scan direction: rows (horizontal) or columns (vertical).
#[derive(Clone, Copy, Debug, PartialEq, Eq, Structural)]
pub enum Direction {
    Horizontal,
    Vertical,
}

/// Which neighbouring line differs from a run: the previous one (`Before`), the
/// next one (`After`), both or neither.
#[derive(Clone, Copy, Debug, PartialEq, Eq, Structural)]
pub enum EdgeType {
    Before,
    After,
    Neither,
    Both,
}

/// A run `[start, end)` along one line.
pub type Run = (u32, u32);

/// A run with its edge type.
pub type Edge = (u32, u32, EdgeType);

/// Number of lines scanned in direction `dir`.
pub open spec fn line_count(bm: &Bitmap, dir: Direction) -> int {
    match dir {
        Direction::Horizontal => bm.height as int,
        Direction::Vertical => bm.width as int,
    }
}

/// Number of pixels along one line in direction `dir`.
pub open spec fn line_len(bm: &Bitmap, dir: Direction) -> int {
    match dir {
        Direction::Horizontal => bm.width as int,
        Direction::Vertical => bm.height as int,
    }
}

/// Line `i`: row `i` when horizontal, column `i` when vertical.
pub open spec fn line_of(bm: &Bitmap, dir: Direction, i: int) -> Seq<Rgb> {
    match dir {
        Direction::Horizontal => bm.row(i),
        Direction::Vertical => bm.col(i),
    }
}

pub open spec fn min_run(dir: Direction) -> int {
    match dir {
        Direction::Horizontal => MIN_HORIZONTAL_RUN as int,
        Direction::Vertical => MIN_VERTICAL_RUN as int,
    }
}

/// Scanning `line` left to right up to position `x` (exclusive of boundaries at
/// `x` and beyond): the start of the run still open at `x` and the runs longer
/// than `min` closed so far, each closed where the colour changes. See
/// `lemma_runs_of_maximal` for what the scan yields.
pub open spec fn scan_runs(line: Seq<Rgb>, x: int, min: int) -> (int, Seq<Run>)
    decreases x,
{
    if x <= 1 {
        (0, Seq::empty())
    } else {
        let (s, acc) = scan_runs(line, x - 1, min);
        if line[x - 1] != line[x - 2] {
            (x - 1, if x - 1 - s > min { acc.push((s as u32, (x - 1) as u32)) } else { acc })
        } else {
            (s, acc)
        }
    }
}

/// The maximal single-colour runs of `line` longer than `min`, in order
/// (`lemma_runs_of_maximal`).
pub open spec fn runs_of(line: Seq<Rgb>, min: int) -> Seq<Run> {
    if line.len() == 0 {
        Seq::empty()
    } else {
        let (s, acc) = scan_runs(line, line.len() as int, min);
        if line.len() - s > min {
            acc.push((s as u32, line.len() as u32))
        } else {
            acc
        }
    }
}

/// Pixels of `a` in `[lo, hi)` that differ from `b` at the same position.
pub open spec fn count_diff(a: Seq<Rgb>, b: Seq<Rgb>, lo: int, hi: int) -> nat
    decreases hi - lo,
{
    if hi <= lo {
        0
    } else {
        count_diff(a, b, lo, hi - 1) + if a[hi - 1] != b[hi - 1] { 1nat } else { 0nat }
    }
}

/// Mismatches a run of length `len` tolerates before its side counts as a border.
pub open spec fn tolerance(len: int) -> int {
    if len > WIDE_RUN { WIDE_RUN_TOLERANCE as int } else { NARROW_RUN_TOLERANCE as int }
}

/// The interior `[start + 1, end)` of the run on line `i` differs from line `j`
/// in more pixels than tolerated.
pub open spec fn side_differs(bm: &Bitmap, dir: Direction, i: int, j: int, run: Run) -> bool {
    count_diff(line_of(bm, dir, i), line_of(bm, dir, j), run.0 + 1, run.1 as int) > tolerance(
        run.1 - run.0,
    )
}

pub open spec fn edge_type_of(before: bool, after: bool) -> EdgeType {
    if before && after {
        EdgeType::Both
    } else if before {
        EdgeType::Before
    } else if after {
        EdgeType::After
    } else {
        EdgeType::Neither
    }
}

/// The edge type of `run` on line `i`: the previous line is tested only where it
/// exists, the next one likewise.
pub open spec fn classify(bm: &Bitmap, dir: Direction, i: int, run: Run) -> EdgeType {
    edge_type_of(
        i > 0 && side_differs(bm, dir, i, i - 1, run),
        i + 1 < line_count(bm, dir) && side_differs(bm, dir, i, i + 1, run),
    )
}

/// Runs of one line lie inside it and are non-empty.
pub open spec fn runs_in_line(runs: Seq<Run>, len: int) -> bool {
    forall|k: int| 0 <= k < runs.len() ==> (#[trigger] runs[k]).0 < runs[k].1 <= len
}

proof fn lemma_scan_runs_bounded(line: Seq<Rgb>, x: int, min: int)
    requires
        1 <= x <= line.len(),
        line.len() <= u32::MAX,
    ensures
        0 <= scan_runs(line, x, min).0 < x,
        runs_in_line(scan_runs(line, x, min).1, scan_runs(line, x, min).0),
    decreases x,
{
    if x > 1 {
        lemma_scan_runs_bounded(line, x - 1, min);
    }
}

pub proof fn lemma_runs_of_in_line(line: Seq<Rgb>, min: int)
    requires
        line.len() <= u32::MAX,
        min >= 0,
    ensures
        runs_in_line(runs_of(line, min), line.len() as int),
{
    if line.len() > 0 {
        lemma_scan_runs_bounded(line, line.len() as int, min);
    }
}

pub(crate) fn line_pixel(bm: &Bitmap, dir: Direction, i: u32, p: u32) -> (c: Rgb)
    requires
        bm.wf(),
        i < line_count(bm, dir),
        p < line_len(bm, dir),
    ensures
        c == line_of(bm, dir, i as int)[p as int],
{
    match dir {
        Direction::Horizontal => bm.get_pixel(p, i),
        Direction::Vertical => bm.get_pixel(i, p),
    }
}

fn count_of(bm: &Bitmap, dir: Direction) -> (n: u32)
    ensures
        n == line_count(bm, dir),
{
    match dir {
        Direction::Horizontal => bm.height,
        Direction::Vertical => bm.width,
    }
}

fn len_of(bm: &Bitmap, dir: Direction) -> (n: u32)
    ensures
        n == line_len(bm, dir),
{
    match dir {
        Direction::Horizontal => bm.width,
        Direction::Vertical => bm.height,
    }
}

/// The runs of line `i` that are longer than the direction's minimum.
pub fn line_runs(bm: &Bitmap, dir: Direction, i: u32) -> (r: Vec<Run>)
    requires
        bm.wf(),
        i < line_count(bm, dir),
    ensures
        r@ == runs_of(line_of(bm, dir, i as int), min_run(dir)),
{
    let ghost line = line_of(bm, dir, i as int);
    let len = len_of(bm, dir);
    let min: u32 = match dir {
        Direction::Horizontal => MIN_HORIZONTAL_RUN,
        Direction::Vertical => MIN_VERTICAL_RUN,
    };
    let mut r: Vec<Run> = Vec::new();
    if len == 0 {
        return r;
    }
    let mut start: u32 = 0;
    let mut x: u32 = 1;
    while x < len
        invariant
            1 <= x <= len,
            start < x,
            len == line.len(),
            line == line_of(bm, dir, i as int),
            bm.wf(),
            i < line_count(bm, dir),
            len == line_len(bm, dir),
            min == min_run(dir),
            scan_runs(line, x as int, min as int) == (start as int, r@),
        decreases len - x,
    {
        let c = line_pixel(bm, dir, i, x);
        let p = line_pixel(bm, dir, i, x - 1);
        if c != p {
            if x - start > min {
                r.push((start, x));
            }
            start = x;
        }
        x = x + 1;
    }
    if len - start > min {
        r.push((start, len));
    }
    r
}

/// Runs of every line in direction `dir`, lines processed in parallel.
/// Relies on rayon: `into_par_iter` over a `u32` range is an indexed parallel
/// iterator, `map` keeps it indexed, and `collect` into a `Vec` writes each item
/// at its index; the closure only calls the verified `line_runs`.
#[verifier::external_body]
fn runs_per_line(bm: &Bitmap, dir: Direction, n: u32) -> (r: Vec<Vec<Run>>)
    requires
        bm.wf(),
        n == line_count(bm, dir),
    ensures
        r@.len() == line_count(bm, dir),
        forall|i: int|
            0 <= i < r@.len() ==> (#[trigger] r@[i])@ == runs_of(line_of(bm, dir, i), min_run(dir)),
{
    (0..n).into_par_iter().map(|i| line_runs(bm, dir, i)).collect()
}

/// For every row, its single-colour runs longer than `MIN_HORIZONTAL_RUN`.
pub fn find_horizontal_lines(image: &Bitmap) -> (r: Vec<Vec<Run>>)
    requires
        image.wf(),
    ensures
        r@.len() == image.height,
        forall|y: int|
            0 <= y < r@.len() ==> (#[trigger] r@[y])@ == runs_of(
                image.row(y),
                MIN_HORIZONTAL_RUN as int,
            ),
{
    runs_per_line(image, Direction::Horizontal, image.height)
}

/// For every column, its single-colour runs longer than `MIN_VERTICAL_RUN`.
pub fn find_vertical_lines(image: &Bitmap) -> (r: Vec<Vec<Run>>)
    requires
        image.wf(),
    ensures
        r@.len() == image.width,
        forall|x: int|
            0 <= x < r@.len() ==> (#[trigger] r@[x])@ == runs_of(
                image.col(x),
                MIN_VERTICAL_RUN as int,
            ),
{
    runs_per_line(image, Direction::Vertical, image.width)
}

/// The runs of line `i` with their edge types.
pub open spec fn typed_line(bm: &Bitmap, dir: Direction, i: int, runs: Seq<Run>) -> Seq<Edge> {
    Seq::new(runs.len(), |k: int| (runs[k].0, runs[k].1, classify(bm, dir, i, runs[k])))
}

/// Every run of every line lies inside its line, one entry per line.
pub open spec fn lines_fit(bm: &Bitmap, dir: Direction, lines: Seq<Vec<Run>>) -> bool {
    &&& lines.len() == line_count(bm, dir)
    &&& forall|i: int| 0 <= i < lines.len() ==> runs_in_line(#[trigger] lines[i]@, line_len(bm, dir))
}

proof fn lemma_count_diff_mono(a: Seq<Rgb>, b: Seq<Rgb>, lo: int, m: int, hi: int)
    requires
        lo <= m <= hi,
    ensures
        count_diff(a, b, lo, m) <= count_diff(a, b, lo, hi),
    decreases hi - m,
{
    if m < hi {
        lemma_count_diff_mono(a, b, lo, m, hi - 1);
    }
}

/// Whether the run on line `i` differs from line `j` beyond its tolerance.
fn differs_from(bm: &Bitmap, dir: Direction, i: u32, j: u32, run: Run) -> (r: bool)
    requires
        bm.wf(),
        i < line_count(bm, dir),
        j < line_count(bm, dir),
        run.0 < run.1 <= line_len(bm, dir),
    ensures
        r == side_differs(bm, dir, i as int, j as int, run),
{
    let ghost a = line_of(bm, dir, i as int);
    let ghost b = line_of(bm, dir, j as int);
    let tol: u32 = if run.1 - run.0 > WIDE_RUN { WIDE_RUN_TOLERANCE } else { NARROW_RUN_TOLERANCE };
    let mut count: u32 = 0;
    let mut p: u32 = run.0 + 1;
    while p < run.1
        invariant
            bm.wf(),
            i < line_count(bm, dir),
            j < line_count(bm, dir),
            run.0 < run.1 <= line_len(bm, dir),
            run.0 + 1 <= p <= run.1,
            a == line_of(bm, dir, i as int),
            b == line_of(bm, dir, j as int),
            tol == tolerance(run.1 - run.0),
            count == count_diff(a, b, run.0 + 1, p as int),
            count <= tol,
        decreases run.1 - p,
    {
        if line_pixel(bm, dir, i, p) != line_pixel(bm, dir, j, p) {
            count = count + 1;
            if count > tol {
                proof {
                    lemma_count_diff_mono(a, b, run.0 + 1, p + 1, run.1 as int);
                }
                return true;
            }
        }
        p = p + 1;
    }
    false
}

/// The runs of line `i` with their edge types.
pub fn type_line_runs(bm: &Bitmap, dir: Direction, i: u32, runs: &Vec<Run>) -> (r: Vec<Edge>)
    requires
        bm.wf(),
        i < line_count(bm, dir),
        runs_in_line(runs@, line_len(bm, dir)),
    ensures
        r@ == typed_line(bm, dir, i as int, runs@),
{
    let count = count_of(bm, dir);
    let mut r: Vec<Edge> = Vec::new();
    let mut k: usize = 0;
    while k < runs.len()
        invariant
            bm.wf(),
            i < line_count(bm, dir),
            count == line_count(bm, dir),
            runs_in_line(runs@, line_len(bm, dir)),
            k <= runs@.len(),
            r@ == typed_line(bm, dir, i as int, runs@).take(k as int),
        decreases runs@.len() - k,
    {
        let run = runs[k];
        let before = i > 0 && differs_from(bm, dir, i, i - 1, run);
        let after = i + 1 < count && differs_from(bm, dir, i, i + 1, run);
        let t = if before && after {
            EdgeType::Both
        } else if before {
            EdgeType::Before
        } else if after {
            EdgeType::After
        } else {
            EdgeType::Neither
        };
        r.push((run.0, run.1, t));
        proof {
            assert(r@ =~= typed_line(bm, dir, i as int, runs@).take(k + 1));
        }
        k = k + 1;
    }
    proof {
        assert(typed_line(bm, dir, i as int, runs@).take(runs@.len() as int) =~= typed_line(
            bm,
            dir,
            i as int,
            runs@,
        ));
    }
    r
}

/// Edge types of every line's runs, lines processed in parallel.
/// Relies on rayon: `into_par_iter` over a `u32` range is an indexed parallel
/// iterator, `map` keeps it indexed, and `collect` into a `Vec` writes each item
/// at its index; the closure only calls the verified `type_line_runs`.
#[verifier::external_body]
fn typed_lines_in_parallel(bm: &Bitmap, lines: &Vec<Vec<Run>>, dir: Direction) -> (r: Vec<Vec<Edge>>)
    requires
        bm.wf(),
        lines_fit(bm, dir, lines@),
    ensures
        r@.len() == lines@.len(),
        forall|i: int|
            0 <= i < r@.len() ==> (#[trigger] r@[i])@ == typed_line(bm, dir, i, lines@[i]@),
{
    let n = lines.len() as u32;
    (0..n).into_par_iter().map(|i| type_line_runs(bm, dir, i, &lines[i as usize])).collect()
}

/// Tags every run with whether the previous line (`Before`) and the next line
/// (`After`) differ from it over its interior `[start + 1, end)` in more pixels
/// than tolerated: 4 for runs longer than 100 pixels, else 1.
pub fn detect_edge_types(image: &Bitmap, lines: &Vec<Vec<Run>>, direction: Direction) -> (r: Vec<
    Vec<Edge>,
>)
    requires
        image.wf(),
        lines_fit(image, direction, lines@),
    ensures
        r@.len() == lines@.len(),
        forall|i: int|
            0 <= i < r@.len() ==> (#[trigger] r@[i])@ == typed_line(
                image,
                direction,
                i,
                lines@[i]@,
            ),
{
    typed_lines_in_parallel(image, lines, direction)
}

/// Edge `outer` spans edge `inner`.
pub open spec fn spans(outer: Edge, inner: Edge) -> bool {
    outer.0 <= inner.0 && inner.1 <= outer.1
}

/// Lines that deduplication compares with line `idx`: the `DEDUP_WINDOW` lines
/// before it for a `Before` edge, else the `DEDUP_WINDOW` lines after it.
pub open spec fn in_window(idx: int, i: int, n: int, before: bool) -> bool {
    if before {
        idx - (DEDUP_WINDOW as int) <= i < idx && 0 <= i
    } else {
        idx < i <= idx + DEDUP_WINDOW as int && i < n
    }
}

/// The views of a list of vectors.
pub open spec fn nested<T>(v: Seq<Vec<T>>) -> Seq<Seq<T>> {
    Seq::new(v.len(), |i: int| v[i]@)
}

/// A `Before` edge of line `idx` is spanned by a `Before` edge of one of the
/// previous lines of the window; an `After` edge by an `After` edge of one of
/// the next lines.
pub open spec fn dominated(edges: Seq<Seq<Edge>>, idx: int, e: Edge) -> bool {
    let before = e.2 == EdgeType::Before;
    let kind = if before { EdgeType::Before } else { EdgeType::After };
    exists|i: int, j: int|
        in_window(idx, i, edges.len() as int, before) && 0 <= j < edges[i].len() && (
        #[trigger] edges[i][j]).2 == kind && spans(edges[i][j], e)
}

/// Edge `e` of line `idx` survives deduplication: only `Before` and `After`
/// edges can be repeats; `Both` and `Neither` edges are always kept.
pub open spec fn kept_edge(edges: Seq<Seq<Edge>>, idx: int, e: Edge) -> bool {
    !((e.2 == EdgeType::Before || e.2 == EdgeType::After) && dominated(edges, idx, e))
}

/// The predicate `kept_edge(edges, idx, _)`.
pub open spec fn keeps(edges: Seq<Seq<Edge>>, idx: int) -> spec_fn(Edge) -> bool {
    |e: Edge| kept_edge(edges, idx, e)
}

fn is_dominated(edges: &Vec<Vec<Edge>>, idx: usize, e: Edge) -> (r: bool)
    requires
        idx < edges@.len(),
    ensures
        r == dominated(nested(edges@), idx as int, e),
{
    let n = edges.len();
    let before = e.2 == EdgeType::Before;
    let kind = if before { EdgeType::Before } else { EdgeType::After };
    let lo: usize = if before {
        if idx >= DEDUP_WINDOW { idx - DEDUP_WINDOW } else { 0 }
    } else {
        idx + 1
    };
    let hi: usize = if before {
        idx
    } else if n - idx > DEDUP_WINDOW {
        idx + DEDUP_WINDOW + 1
    } else {
        n
    };
    let mut i: usize = lo;
    while i < hi
        invariant
            n == edges@.len(),
            idx < n,
            lo <= i,
            hi <= n,
            before == (e.2 == EdgeType::Before),
            kind == (if before { EdgeType::Before } else { EdgeType::After }),
            forall|t: int| lo <= t < hi <==> in_window(idx as int, t, n as int, before),
            forall|t: int, j: int|
                lo <= t < i && 0 <= j < edges@[t]@.len() ==> !((#[trigger] edges@[t]@[j]).2 == kind
                    && spans(edges@[t]@[j], e)),
        decreases hi - i,
    {
        let line = &edges[i];
        let mut j: usize = 0;
        while j < line.len()
            invariant
                n == edges@.len(),
                idx < n,
                lo <= i < hi <= n,
                line@ == edges@[i as int]@,
                before == (e.2 == EdgeType::Before),
                kind == (if before { EdgeType::Before } else { EdgeType::After }),
                forall|t: int| lo <= t < hi <==> in_window(idx as int, t, n as int, before),
                j <= line@.len(),
                forall|t: int, q: int|
                    lo <= t < i && 0 <= q < edges@[t]@.len() ==> !((#[trigger] edges@[t]@[q]).2
                        == kind && spans(edges@[t]@[q], e)),
                forall|q: int| 0 <= q < j ==> !((#[trigger] line@[q]).2 == kind && spans(line@[q], e)),
            decreases line@.len() - j,
        {
            let c = line[j];
            if c.2 == kind && c.0 <= e.0 && e.1 <= c.1 {
                proof {
                    assert(in_window(idx as int, i as int, n as int, before));
                    assert(edges@[i as int]@[j as int] == c);
                    assert(nested(edges@)[i as int] == edges@[i as int]@);
                }
                return true;
            }
            j = j + 1;
        }
        i = i + 1;
    }
    proof {
        let ne = nested(edges@);
        if dominated(ne, idx as int, e) {
            let (t, q) = choose|t: int, q: int|
                in_window(idx as int, t, n as int, before) && 0 <= q < ne[t].len() && (
                #[trigger] ne[t][q]).2 == kind && spans(ne[t][q], e);
            assert(lo <= t < hi);
            assert(ne[t] == edges@[t]@);
            assert(edges@[t]@[q] == ne[t][q]);
        }
    }
    false
}

/// Drops the weaker repeats of one border: a `Before` edge spanned by a `Before`
/// edge of one of the previous `DEDUP_WINDOW` lines, and an `After` edge spanned
/// by an `After` edge of one of the next `DEDUP_WINDOW` lines. `Both` and
/// `Neither` edges are kept; the order of edges is kept.
pub fn deduplicate_captured_edges(edges: &Vec<Vec<Edge>>) -> (r: Vec<Vec<Edge>>)
    ensures
        r@.len() == edges@.len(),
        forall|idx: int|
            0 <= idx < r@.len() ==> (#[trigger] r@[idx])@ == edges@[idx]@.filter(keeps(nested(edges@), idx)),
{
    let n = edges.len();
    let mut r: Vec<Vec<Edge>> = Vec::new();
    let mut idx: usize = 0;
    while idx < n
        invariant
            n == edges@.len(),
            idx <= n,
            r@.len() == idx,
            forall|t: int|
                0 <= t < idx ==> (#[trigger] r@[t])@ == edges@[t]@.filter(keeps(nested(edges@), t)),
        decreases n - idx,
    {
        let ghost p = keeps(nested(edges@), idx as int);
        let line = &edges[idx];
        let mut kept: Vec<Edge> = Vec::new();
        let mut k: usize = 0;
        while k < line.len()
            invariant
                n == edges@.len(),
                idx < n,
                line@ == edges@[idx as int]@,
                k <= line@.len(),
                p == keeps(nested(edges@), idx as int),
                kept@ == line@.take(k as int).filter(p),
            decreases line@.len() - k,
        {
            proof {
                crate::geometry::lemma_filter_take_step(line@, k as int, p);
            }
            let e = line[k];
            if !((e.2 == EdgeType::Before || e.2 == EdgeType::After) && is_dominated(edges, idx, e)) {
                kept.push(e);
            }
            k = k + 1;
        }
        proof {
            assert(line@.take(line@.len() as int) =~= line@);
        }
        r.push(kept);
        idx = idx + 1;
    }
    r
}

/// Every pixel of `line` in `[lo, hi)` has colour `c`.
pub open spec fn all_of_color(line: Seq<Rgb>, lo: int, hi: int, c: Rgb) -> bool {
    forall|p: int| lo <= p < hi ==> line[p] == c
}

/// Whether pixels `[lo, hi)` of line `i` all have colour `c`.
pub fn is_all_of_color(bm: &Bitmap, dir: Direction, i: u32, lo: u32, hi: u32, c: Rgb) -> (r: bool)
    requires
        bm.wf(),
        i < line_count(bm, dir),
        hi <= line_len(bm, dir),
    ensures
        r == all_of_color(line_of(bm, dir, i as int), lo as int, hi as int, c),
{
    let mut p: u32 = lo;
    while p < hi
        invariant
            bm.wf(),
            i < line_count(bm, dir),
            hi <= line_len(bm, dir),
            lo <= p,
            all_of_color(line_of(bm, dir, i as int), lo as int, p as int, c),
        decreases hi - p,
    {
        if line_pixel(bm, dir, i, p) != c {
            return false;
        }
        p = p + 1;
    }
    true
}

/// `[s, e)` is a maximal single-colour interval of `line` longer than `min`.
pub open spec fn is_max_run(line: Seq<Rgb>, s: int, e: int, min: int) -> bool {
    &&& 0 <= s < e <= line.len()
    &&& e - s > min
    &&& forall|p: int| s <= p < e ==> #[trigger] line[p] == line[s]
    &&& (s == 0 || line[s - 1] != line[s])
    &&& (e == line.len() || line[e] != line[e - 1])
}

/// What holds after scanning up to `x`: the open run starts at a colour change
/// and is one colour so far; the closed runs are exactly the maximal runs longer
/// than `min` ending by its start, in increasing order.
pub open spec fn scan_state_ok(line: Seq<Rgb>, x: int, min: int, st: int, acc: Seq<Run>) -> bool {
    &&& 0 <= st < x
    &&& (st == 0 || line[st - 1] != line[st])
    &&& forall|p: int| st <= p < x ==> #[trigger] line[p] == line[st]
    &&& forall|k: int| 0 <= k < acc.len() ==> is_max_run(line, (#[trigger] acc[k]).0 as int, acc[k].1 as int, min) && acc[k].1 <= st
    &&& forall|k: int, q: int| 0 <= k < q < acc.len() ==> (#[trigger] acc[k]).1 <= (#[trigger] acc[q]).0
    &&& forall|a: int, b: int| #[trigger] is_max_run(line, a, b, min) && b <= st ==> acc.contains((a as u32, b as u32))
}

proof fn lemma_max_run_start(line: Seq<Rgb>, a: int, b: int, min: int, st: int, x: int)
    requires
        is_max_run(line, a, b, min),
        0 <= st < x,
        (st == 0 || line[st - 1] != line[st]),
        forall|p: int| st <= p < x ==> #[trigger] line[p] == line[st],
        st < b <= x,
    ensures
        a == st,
{
    if a < st {
        assert(line[st - 1] == line[a] && line[st] == line[a]);
    }
    if a > st {
        assert(line[a - 1] == line[st] && line[a] == line[st]);
    }
}

proof fn lemma_scan_runs_ok(line: Seq<Rgb>, x: int, min: int)
    requires
        1 <= x <= line.len(),
        line.len() <= u32::MAX,
    ensures
        scan_state_ok(line, x, min, scan_runs(line, x, min).0, scan_runs(line, x, min).1),
    decreases x,
{
    if x > 1 {
        lemma_scan_runs_ok(line, x - 1, min);
        let (st, acc) = scan_runs(line, x - 1, min);
        let (st2, acc2) = scan_runs(line, x, min);
        if line[x - 1] != line[x - 2] {
            assert forall|a: int, b: int| #[trigger] is_max_run(line, a, b, min) && b <= st2 implies acc2.contains((a as u32, b as u32)) by {
                if b <= st {
                    let k = choose|k: int| 0 <= k < acc.len() && acc[k] == (a as u32, b as u32);
                    assert(acc2[k] == acc[k]);
                } else {
                    lemma_max_run_start(line, a, b, min, st, x - 1);
                    if b < x - 1 {
                        assert(line[b] == line[st] && line[b - 1] == line[st]);
                    }
                    assert(acc2[acc.len() as int] == (a as u32, b as u32));
                }
            }
            if x - 1 - st > min {
                assert(is_max_run(line, st, x - 1, min));
                assert forall|k: int| 0 <= k < acc2.len() implies is_max_run(line, (#[trigger] acc2[k]).0 as int, acc2[k].1 as int, min) && acc2[k].1 <= st2 by {
                    if k < acc.len() {
                        assert(acc2[k] == acc[k]);
                    }
                }
                assert forall|k: int, q: int| 0 <= k < q < acc2.len() implies (#[trigger] acc2[k]).1 <= (#[trigger] acc2[q]).0 by {
                    if q < acc.len() {
                        assert(acc2[k] == acc[k] && acc2[q] == acc[q]);
                    } else {
                        assert(acc2[k] == acc[k]);
                    }
                }
            }
        } else {
            assert forall|a: int, b: int| #[trigger] is_max_run(line, a, b, min) && b <= st2 implies acc2.contains((a as u32, b as u32)) by {}
        }
    }
}

/// The runs of `line` are exactly its maximal single-colour intervals longer
/// than `min`, in increasing order.
pub proof fn lemma_runs_of_maximal(line: Seq<Rgb>, min: int)
    requires
        line.len() <= u32::MAX,
        min >= 0,
    ensures
        forall|k: int| 0 <= k < runs_of(line, min).len() ==> is_max_run(line, (#[trigger] runs_of(line, min)[k]).0 as int, runs_of(line, min)[k].1 as int, min),
        forall|a: int, b: int| #[trigger] is_max_run(line, a, b, min) ==> runs_of(line, min).contains((a as u32, b as u32)),
        forall|k: int, q: int|
            0 <= k < q < runs_of(line, min).len() ==> (#[trigger] runs_of(line, min)[k]).1 <= (#[trigger] runs_of(line, min)[q]).0,
{
    if line.len() > 0 {
        let n = line.len() as int;
        lemma_scan_runs_ok(line, n, min);
        let (st, acc) = scan_runs(line, n, min);
        let r = runs_of(line, min);
        assert forall|a: int, b: int| #[trigger] is_max_run(line, a, b, min) implies r.contains((a as u32, b as u32)) by {
            if b <= st {
                let k = choose|k: int| 0 <= k < acc.len() && acc[k] == (a as u32, b as u32);
                assert(r[k] == acc[k]);
            } else {
                lemma_max_run_start(line, a, b, min, st, n);
                assert(b == n);
                assert(r[acc.len() as int] == (a as u32, b as u32));
            }
        }
        if n - st > min {
            assert(is_max_run(line, st, n, min));
            assert forall|k: int| 0 <= k < r.len() implies is_max_run(line, (#[trigger] r[k]).0 as int, r[k].1 as int, min) by {
                if k < acc.len() {
                    assert(r[k] == acc[k]);
                }
            }
            assert forall|k: int, q: int| 0 <= k < q < r.len() implies (#[trigger] r[k]).1 <= (#[trigger] r[q]).0 by {
                assert(r[k] == acc[k]);
                if q < acc.len() {
                    assert(r[q] == acc[q]);
                }
            }
        }
    }
}

} // verus!
