use vstd::prelude::*;
use crate::bitmap::Bitmap;
use crate::boxes::{
    Placed, build_adjacency, construct_boxes, fits_inside, flat_border, is_candidate, place_edges,
    placed_upto, valid_quad, validate_boxes,
};
use crate::coarse::{coarse_edge_map, dense, is_coarse_map, is_dense};
use crate::edges::{
    Direction, Edge, EdgeType, deduplicate_captured_edges, detect_edge_types, find_horizontal_lines,
    find_vertical_lines, lemma_runs_of_in_line, lines_fit, min_run, line_of, runs_in_line, line_len, nested,
    keeps, typed_line,
};
use crate::geometry::{
    Rect, all_inside, all_proper, antichain, bounded, contains, filter_children, has_outer, is_proper,
    lemma_filter_bounded, lemma_filter_children_antichain, lemma_filter_take_step, lemma_within_bounded,
    merge_boxes, overlaps, merge_closed, near, covers, covered, holds_some, merged, no_outer, outermost,
};
use crate::lines::{assemble_lines, find_links, lemma_line_boxes_bounded, lemma_links_bounded, line_boxes, links_upto};
use crate::trim::{lemma_trim_within, remove_box_padding, split_all, split_boxes_at_gaps, trim_fn, trimmed_all};

verus! {

/// Boxes at most this high are text fragments; higher ones are big regions.
pub const MAX_FRAGMENT_HEIGHT: u32 = 35;

/// Fragments on one baseline merge when this close horizontally.
pub const FRAGMENT_MERGE_PADDING: u32 = 5;

/// Big regions merge when this close.
pub const REGION_MERGE_PADDING: u32 = 1;

/// Narrowest big region kept.
pub const MIN_REGION_WIDTH: u32 = 10;

/// A big region overlapping more text fragments than this is dropped.
pub const MAX_TEXT_OVERLAPS: u32 = 1;

/// Large images are wider and higher than this.
pub const LARGE_IMAGE_SIZE: u32 = 300;

/// Large images keep clear of a screen margin this wide.
pub const SCREEN_MARGIN: u32 = 10;

/// Boxes at most `MAX_FRAGMENT_HEIGHT` high.
pub open spec fn fragment_filter() -> spec_fn(Rect) -> bool {
    |b: Rect| is_fragment(b)
}

/// Boxes higher than `MAX_FRAGMENT_HEIGHT`.
pub open spec fn region_filter() -> spec_fn(Rect) -> bool {
    |b: Rect| !is_fragment(b)
}

/// Boxes on baseline `y`.
pub open spec fn baseline_filter(y: u32) -> spec_fn(Rect) -> bool {
    |b: Rect| b.3 == y
}

/// Boxes of `s` not repeating another box of `s` (see `shares_sides_around`).
pub open spec fn unshared_filter(s: Seq<Rect>) -> spec_fn(Rect) -> bool {
    |b: Rect| !shares_sides_around(s, b)
}

/// Boxes at least `MIN_REGION_WIDTH` wide.
pub open spec fn wide_filter() -> spec_fn(Rect) -> bool {
    |b: Rect| b.2 - b.0 >= MIN_REGION_WIDTH
}

/// Boxes overlapping at most `MAX_TEXT_OVERLAPS` of `texts`.
pub open spec fn few_overlaps_filter(texts: Seq<Rect>) -> spec_fn(Rect) -> bool {
    |b: Rect| overlap_count(texts, b, texts.len() as int) <= MAX_TEXT_OVERLAPS
}

/// Boxes inside none of `texts`.
pub open spec fn outside_text_filter(texts: Seq<Rect>) -> spec_fn(Rect) -> bool {
    |b: Rect| !inside_text(texts, b)
}

/// Large images of `bm`.
pub open spec fn large_filter(bm: &Bitmap) -> spec_fn(Rect) -> bool {
    |b: Rect| is_large(b, bm.width as int, bm.height as int)
}

/// Small images of `bm`: not large, dense in its edge map.
pub open spec fn small_filter(bm: &Bitmap) -> spec_fn(Rect) -> bool {
    |b: Rect| !is_large(b, bm.width as int, bm.height as int) && dense(bm, b)
}

/// Plain big boxes of `bm`: neither large nor dense.
pub open spec fn plain_filter(bm: &Bitmap) -> spec_fn(Rect) -> bool {
    |b: Rect| !is_large(b, bm.width as int, bm.height as int) && !dense(bm, b)
}

/// Horizontal edges keep `Before` and `After` runs; vertical ones `Both` too.
pub open spec fn kind_kept(e: Edge, allow_both: bool) -> bool {
    e.2 == EdgeType::Before || e.2 == EdgeType::After || (allow_both && e.2 == EdgeType::Both)
}

/// The predicate `kind_kept(_, allow_both)`.
pub open spec fn kind_filter(allow_both: bool) -> spec_fn(Edge) -> bool {
    |e: Edge| kind_kept(e, allow_both)
}

/// Keeps the edges of the kinds that can bound a box, line by line.
pub fn keep_kinds(edges: &Vec<Vec<Edge>>, allow_both: bool) -> (r: Vec<Vec<Edge>>)
    ensures
        r@.len() == edges@.len(),
        forall|i: int| 0 <= i < r@.len() ==> (#[trigger] r@[i])@ == edges@[i]@.filter(kind_filter(allow_both)),
{
    let ghost p = kind_filter(allow_both);
    let mut r: Vec<Vec<Edge>> = Vec::new();
    let mut i: usize = 0;
    while i < edges.len()
        invariant
            i <= edges@.len(),
            r@.len() == i,
            p == kind_filter(allow_both),
            forall|q: int| 0 <= q < i ==> (#[trigger] r@[q])@ == edges@[q]@.filter(p),
        decreases edges@.len() - i,
    {
        let line = &edges[i];
        let mut kept: Vec<Edge> = Vec::new();
        let mut k: usize = 0;
        while k < line.len()
            invariant
                line@ == edges@[i as int]@,
                k <= line@.len(),
                p == kind_filter(allow_both),
                kept@ == line@.take(k as int).filter(p),
            decreases line@.len() - k,
        {
            proof {
                lemma_filter_take_step(line@, k as int, p);
            }
            let e = line[k];
            if e.2 == EdgeType::Before || e.2 == EdgeType::After || (allow_both && e.2 == EdgeType::Both) {
                kept.push(e);
            }
            k = k + 1;
        }
        proof {
            assert(line@.take(line@.len() as int) =~= line@);
        }
        r.push(kept);
        i = i + 1;
    }
    r
}

proof fn lemma_placed_line_bound(lines: Seq<Seq<Edge>>, n: int)
    requires
        0 <= n <= lines.len(),
        lines.len() <= u32::MAX,
    ensures
        forall|k: int| 0 <= k < placed_upto(lines, n).len() ==> (#[trigger] placed_upto(lines, n)[k]).0 < n,
    decreases n,
{
    if n > 0 {
        lemma_placed_line_bound(lines, n - 1);
        let a = placed_upto(lines, n - 1);
        let p = placed_upto(lines, n);
        assert forall|k: int| 0 <= k < p.len() implies (#[trigger] p[k]).0 < n by {
            if k < a.len() {
                assert(p[k] == a[k]);
            }
        }
    }
}

proof fn lemma_runs_fit(bm: &Bitmap, dir: Direction, lines: Seq<Vec<(u32, u32)>>)
    requires
        bm.wf(),
        lines.len() == crate::edges::line_count(bm, dir),
        forall|i: int| 0 <= i < lines.len() ==> (#[trigger] lines[i])@ == crate::edges::runs_of(line_of(bm, dir, i), min_run(dir)),
    ensures
        lines_fit(bm, dir, lines),
{
    assert forall|i: int| 0 <= i < lines.len() implies runs_in_line(#[trigger] lines[i]@, line_len(bm, dir)) by {
        lemma_runs_of_in_line(line_of(bm, dir, i), min_run(dir));
    }
}

/// The runs of every line in direction `dir`.
pub open spec fn runs_view(bm: &Bitmap, dir: Direction) -> Seq<Seq<(u32, u32)>> {
    Seq::new(crate::edges::line_count(bm, dir) as nat, |i: int| crate::edges::runs_of(line_of(bm, dir, i), min_run(dir)))
}

/// The typed runs of every line in direction `dir`.
pub open spec fn typed_view(bm: &Bitmap, dir: Direction) -> Seq<Seq<Edge>> {
    Seq::new(crate::edges::line_count(bm, dir) as nat, |i: int| typed_line(bm, dir, i, runs_view(bm, dir)[i]))
}

/// Each line's edges of the kinds kept.
pub open spec fn kinds_view(lines: Seq<Seq<Edge>>, allow_both: bool) -> Seq<Seq<Edge>> {
    Seq::new(lines.len(), |i: int| lines[i].filter(kind_filter(allow_both)))
}

/// Each line's edges that survive deduplication.
pub open spec fn dedup_view(lines: Seq<Seq<Edge>>) -> Seq<Seq<Edge>> {
    Seq::new(lines.len(), |i: int| lines[i].filter(keeps(lines, i)))
}

/// The placed edges of the image in direction `dir`, as the box constructor
/// reads them: typed, of the kinds kept (`Both` only for vertical edges),
/// deduplicated.
pub open spec fn image_edges(bm: &Bitmap, dir: Direction) -> Seq<Placed> {
    let d = dedup_view(kinds_view(typed_view(bm, dir), dir == Direction::Vertical));
    placed_upto(d, d.len() as int)
}

/// Validated candidate boxes of the image: runs, edge types, deduplication,
/// intersection graph, box construction, border validation. A box is listed
/// exactly when four of the image's edges bound it and no side is flat.
pub fn find_candidate_boxes(image: &Bitmap) -> (r: Vec<Rect>)
    requires
        image.wf(),
    ensures
        forall|b: Rect| #[trigger] r@.contains(b) <==> is_candidate(
            image_edges(image, Direction::Horizontal),
            image_edges(image, Direction::Vertical),
            b,
        ) && !flat_border(image, b),
        forall|k: int|
            0 <= k < r@.len() ==> fits_inside(#[trigger] r@[k], image.width as int, image.height as int)
                && !flat_border(image, r@[k]),
{
    let hl = find_horizontal_lines(image);
    let vl = find_vertical_lines(image);
    proof {
        lemma_runs_fit(image, Direction::Horizontal, hl@);
        lemma_runs_fit(image, Direction::Vertical, vl@);
    }
    let he = detect_edge_types(image, &hl, Direction::Horizontal);
    let ve = detect_edge_types(image, &vl, Direction::Vertical);
    let hk = keep_kinds(&he, false);
    let vk = keep_kinds(&ve, true);
    let hd = deduplicate_captured_edges(&hk);
    let vd = deduplicate_captured_edges(&vk);
    let hs = place_edges(&hd);
    let vs = place_edges(&vd);
    proof {
        assert(nested(hl@) =~= runs_view(image, Direction::Horizontal));
        assert(nested(vl@) =~= runs_view(image, Direction::Vertical));
        assert(nested(he@) =~= typed_view(image, Direction::Horizontal));
        assert(nested(ve@) =~= typed_view(image, Direction::Vertical));
        assert(nested(hk@) =~= kinds_view(nested(he@), false));
        assert(nested(vk@) =~= kinds_view(nested(ve@), true));
        assert(nested(hd@) =~= dedup_view(nested(hk@)));
        assert(nested(vd@) =~= dedup_view(nested(vk@)));
        assert(hs@ == image_edges(image, Direction::Horizontal));
        assert(vs@ == image_edges(image, Direction::Vertical));
        lemma_placed_line_bound(nested(hd@), hd@.len() as int);
        lemma_placed_line_bound(nested(vd@), vd@.len() as int);
    }
    let h_adj = build_adjacency(&hs, &vs, true);
    let v_adj = build_adjacency(&vs, &hs, false);
    let cands = construct_boxes(&hs, &vs, &h_adj, &v_adj);
    proof {
        assert forall|k: int| 0 <= k < cands@.len() implies fits_inside(#[trigger] cands@[k], image.width as int, image.height as int) by {
            assert(cands@.contains(cands@[k]));
            let (t, l, rr, b) = choose|t: int, l: int, rr: int, b: int|
                #[trigger] valid_quad(hs@, vs@, t, l, rr, b) && crate::boxes::quad_box(hs@, vs@, t, l, rr, b) == cands@[k];
            assert(vs@[rr].0 < vd@.len());
            assert(hs@[b].0 < hd@.len());
        }
    }
    let r = validate_boxes(image, &cands);
    proof {
        let p = |b: Rect| !flat_border(image, b);
        assert forall|k: int| 0 <= k < r@.len() implies fits_inside(#[trigger] r@[k], image.width as int, image.height as int)
            && !flat_border(image, r@[k]) by {
            cands@.lemma_filter_pred(p, k);
            assert(r@.contains(r@[k]));
            cands@.lemma_filter_contains_rev(p, r@[k]);
            let j = choose|j: int| 0 <= j < cands@.len() && cands@[j] == r@[k];
            assert(fits_inside(cands@[j], image.width as int, image.height as int));
        }
        assert forall|b: Rect| #[trigger] r@.contains(b) <==> cands@.contains(b) && !flat_border(image, b) by {
            if r@.contains(b) {
                cands@.lemma_filter_contains_rev(p, b);
                let k = choose|k: int| 0 <= k < r@.len() && r@[k] == b;
                cands@.lemma_filter_pred(p, k);
            }
            if cands@.contains(b) && !flat_border(image, b) {
                let j = choose|j: int| 0 <= j < cands@.len() && cands@[j] == b;
                cands@.lemma_filter_contains(p, j);
            }
        }
    }
    r
}

pub open spec fn is_fragment(b: Rect) -> bool {
    b.3 - b.1 <= MAX_FRAGMENT_HEIGHT
}

/// Splits boxes into text fragments (at most `MAX_FRAGMENT_HEIGHT` high) and big
/// region candidates, each in input order.
pub fn split_by_height(boxes: &Vec<Rect>) -> (r: (Vec<Rect>, Vec<Rect>))
    requires
        forall|i: int| 0 <= i < boxes@.len() ==> (#[trigger] boxes@[i]).1 <= boxes@[i].3,
    ensures
        r.0@ == boxes@.filter(fragment_filter()),
        r.1@ == boxes@.filter(region_filter()),
{
    let ghost p = fragment_filter();
    let ghost q = region_filter();
    let mut small: Vec<Rect> = Vec::new();
    let mut big: Vec<Rect> = Vec::new();
    let mut i: usize = 0;
    while i < boxes.len()
        invariant
            forall|k: int| 0 <= k < boxes@.len() ==> (#[trigger] boxes@[k]).1 <= boxes@[k].3,
            i <= boxes@.len(),
            p == (fragment_filter()),
            q == (region_filter()),
            small@ == boxes@.take(i as int).filter(p),
            big@ == boxes@.take(i as int).filter(q),
        decreases boxes@.len() - i,
    {
        proof {
            lemma_filter_take_step(boxes@, i as int, p);
            lemma_filter_take_step(boxes@, i as int, q);
        }
        let b = boxes[i];
        if b.3 - b.1 <= MAX_FRAGMENT_HEIGHT {
            small.push(b);
        } else {
            big.push(b);
        }
        i = i + 1;
    }
    proof {
        assert(boxes@.take(boxes@.len() as int) =~= boxes@);
    }
    (small, big)
}

/// Every entry of a filtered sequence is an entry of the sequence.
proof fn lemma_filter_from(s: Seq<Rect>, p: spec_fn(Rect) -> bool)
    ensures
        forall|k: int| 0 <= k < s.filter(p).len() ==> s.contains(#[trigger] s.filter(p)[k]),
{
    assert forall|k: int| 0 <= k < s.filter(p).len() implies s.contains(#[trigger] s.filter(p)[k]) by {
        assert(s.filter(p).contains(s.filter(p)[k]));
        s.lemma_filter_contains_rev(p, s.filter(p)[k]);
    }
}

/// Properness and any enclosing rectangle carry over to a filtered sequence.
proof fn lemma_filter_inside(s: Seq<Rect>, p: spec_fn(Rect) -> bool)
    ensures
        all_proper(s) ==> all_proper(s.filter(p)),
        forall|bb: Rect| #[trigger] all_inside(s, bb) ==> all_inside(s.filter(p), bb),
{
    lemma_filter_from(s, p);
    let f = s.filter(p);
    if all_proper(s) {
        assert forall|k: int| 0 <= k < f.len() implies is_proper(#[trigger] f[k]) by {
            assert(s.contains(f[k]));
            let j = choose|j: int| 0 <= j < s.len() && s[j] == f[k];
        }
    }
    assert forall|bb: Rect| #[trigger] all_inside(s, bb) implies all_inside(f, bb) by {
        assert forall|k: int| 0 <= k < f.len() implies contains(bb, #[trigger] f[k]) by {
            assert(s.contains(f[k]));
            let j = choose|j: int| 0 <= j < s.len() && s[j] == f[k];
        }
    }
}

/// Whether `boxes[0..i)` has a box on baseline `y`.
fn baseline_seen(boxes: &Vec<Rect>, i: usize, y: u32) -> (r: bool)
    requires
        i <= boxes@.len(),
    ensures
        r == exists|j: int| 0 <= j < i && (#[trigger] boxes@[j]).3 == y,
{
    let mut j: usize = 0;
    while j < i
        invariant
            i <= boxes@.len(),
            j <= i,
            forall|q: int| 0 <= q < j ==> (#[trigger] boxes@[q]).3 != y,
        decreases i - j,
    {
        if boxes[j].3 == y {
            return true;
        }
        j = j + 1;
    }
    false
}

/// The boxes on baseline `y`, in order.
fn on_baseline(boxes: &Vec<Rect>, y: u32) -> (r: Vec<Rect>)
    ensures
        r@ == boxes@.filter(baseline_filter(y)),
{
    let ghost p = baseline_filter(y);
    let mut r: Vec<Rect> = Vec::new();
    let mut i: usize = 0;
    while i < boxes.len()
        invariant
            i <= boxes@.len(),
            p == (baseline_filter(y)),
            r@ == boxes@.take(i as int).filter(p),
        decreases boxes@.len() - i,
    {
        proof {
            lemma_filter_take_step(boxes@, i as int, p);
        }
        if boxes[i].3 == y {
            r.push(boxes[i]);
        }
        i = i + 1;
    }
    proof {
        assert(boxes@.take(boxes@.len() as int) =~= boxes@);
    }
    r
}

fn append(r: &mut Vec<Rect>, more: &Vec<Rect>)
    ensures
        final(r)@ == old(r)@ + more@,
{
    let ghost start = r@;
    let mut k: usize = 0;
    while k < more.len()
        invariant
            r@ == start + more@.take(k as int),
            k <= more@.len(),
        decreases more@.len() - k,
    {
        r.push(more[k]);
        proof {
            assert(r@ =~= start + more@.take(k + 1));
        }
        k = k + 1;
    }
    proof {
        assert(more@.take(more@.len() as int) =~= more@);
    }
}

/// Some box among `s[0..i)` sits on baseline `y`.
pub open spec fn seen_baseline(s: Seq<Rect>, i: int, y: u32) -> bool {
    exists|j: int| 0 <= j < i && (#[trigger] s[j]).3 == y
}

/// No two boxes of `r` at distinct positions on one baseline are near.
pub open spec fn closed_per_baseline(r: Seq<Rect>, xp: int, yp: int) -> bool {
    forall|a: int, b: int|
        0 <= a < r.len() && 0 <= b < r.len() && a != b && r[a].3 == r[b].3 ==> !near(
            #[trigger] r[a],
            #[trigger] r[b],
            xp,
            yp,
        )
}

/// In a merged set of proper boxes no box lies inside a different one: they
/// would overlap, hence be near.
proof fn lemma_merged_has_no_outer(s: Seq<Rect>, xp: int, yp: int)
    requires
        merge_closed(s, xp, yp),
        all_proper(s),
        xp >= 0,
        yp >= 0,
    ensures
        forall|k: int| 0 <= k < s.len() ==> !has_outer(s, #[trigger] s[k]),
{
    assert forall|k: int| 0 <= k < s.len() implies !has_outer(s, #[trigger] s[k]) by {
        if has_outer(s, s[k]) {
            let i = choose|i: int| 0 <= i < s.len() && s[i] != s[k] && contains(#[trigger] s[i], s[k]);
            assert(is_proper(s[k]));
            assert(near(s[i], s[k], xp, yp));
        }
    }
}

/// Filtering with a predicate that holds everywhere keeps the sequence.
proof fn lemma_filter_keeps_all(s: Seq<Rect>, p: spec_fn(Rect) -> bool)
    requires
        forall|k: int| 0 <= k < s.len() ==> p(#[trigger] s[k]),
    ensures
        s.filter(p) == s,
    decreases s.len(),
{
    reveal(Seq::filter);
    if s.len() > 0 {
        lemma_filter_keeps_all(s.drop_last(), p);
        assert(s.drop_last().push(s.last()) =~= s);
    }
}

/// Groups the fragments by baseline (bottom side), in order of first
/// appearance; within each group merges fragments horizontally within
/// `FRAGMENT_MERGE_PADDING` of touching to a fixpoint, then drops the merged boxes
/// that lie inside another of the group. Every fragment ends up inside a result
/// box on its own baseline, and no two result boxes on one baseline are near.
pub fn merge_fragments(fragments: &Vec<Rect>) -> (r: Vec<Rect>)
    requires
        all_proper(fragments@),
    ensures
        r@ == merged_fragments(fragments@),
        all_proper(r@),
        forall|bb: Rect| #[trigger] all_inside(fragments@, bb) ==> all_inside(r@, bb),
        covers(r@, fragments@),
        forall|k: int| 0 <= k < r@.len() ==> seen_baseline(fragments@, fragments@.len() as int, (#[trigger] r@[k]).3),
        closed_per_baseline(r@, FRAGMENT_MERGE_PADDING as int, 0),
{
    let ghost fs = fragments@;
    let n = fragments.len();
    let mut r: Vec<Rect> = Vec::new();
    let mut i: usize = 0;
    while i < n
        invariant
            fs == fragments@,
            n == fs.len(),
            all_proper(fs),
            i <= n,
            r@ == fragment_groups(fs, i as int),
            all_proper(r@),
            forall|bb: Rect| #[trigger] all_inside(fs, bb) ==> all_inside(r@, bb),
            forall|k: int| 0 <= k < r@.len() ==> seen_baseline(fs, i as int, (#[trigger] r@[k]).3),
            closed_per_baseline(r@, FRAGMENT_MERGE_PADDING as int, 0),
            forall|j: int| 0 <= j < n && seen_baseline(fs, i as int, fs[j].3) ==> #[trigger] covered(r@, fs[j]),
        decreases n - i,
    {
        let y = fragments[i].3;
        if !baseline_seen(fragments, i, y) {
            let group = on_baseline(fragments, y);
            let merged = merge_boxes(group, FRAGMENT_MERGE_PADDING, 0);
            let kept = filter_children(merged);
            let ghost before = r@;
            append(&mut r, &kept);
            proof {
                let pg = baseline_filter(y);
                let pk = no_outer(merged@);
                let g = group@;
                let m = merged@;
                lemma_filter_inside(fs, pg);
                assert(all_proper(g));
                assert(all_proper(m));
                lemma_merged_has_no_outer(m, FRAGMENT_MERGE_PADDING as int, 0);
                lemma_filter_keeps_all(m, pk);
                assert(kept@ == m);
                assert(r@ == before + m);
                // every merged box sits on baseline y
                let yb: Rect = (0u32, 0u32, u32::MAX, y);
                assert forall|k: int| 0 <= k < g.len() implies contains(yb, #[trigger] g[k]) by {
                    fs.lemma_filter_pred(pg, k);
                }
                assert(all_inside(g, yb));
                assert(all_inside(m, yb));
                assert forall|q: int| 0 <= q < m.len() implies (#[trigger] m[q]).3 == y by {
                    assert(contains(yb, m[q]));
                    assert(holds_some(m[q], g));
                    let k = choose|k: int| 0 <= k < g.len() && contains(m[q], #[trigger] g[k]);
                    fs.lemma_filter_pred(pg, k);
                }
                assert forall|k: int| 0 <= k < r@.len() implies seen_baseline(fs, i + 1, (#[trigger] r@[k]).3) by {
                    if k < before.len() {
                        assert(r@[k] == before[k]);
                        assert(seen_baseline(fs, i as int, before[k].3));
                        let j = choose|j: int| 0 <= j < i && (#[trigger] fs[j]).3 == before[k].3;
                        assert(fs[j].3 == r@[k].3);
                    } else {
                        assert(r@[k] == m[k - before.len()]);
                        assert(fs[i as int].3 == r@[k].3);
                    }
                }
                assert forall|a: int, b: int|
                    0 <= a < r@.len() && 0 <= b < r@.len() && a != b && r@[a].3 == r@[b].3 implies !near(
                    #[trigger] r@[a],
                    #[trigger] r@[b],
                    FRAGMENT_MERGE_PADDING as int,
                    0,
                ) by {
                    let bl = before.len() as int;
                    if a < bl && b < bl {
                        assert(r@[a] == before[a] && r@[b] == before[b]);
                    } else if a >= bl && b >= bl {
                        assert(r@[a] == m[a - bl] && r@[b] == m[b - bl]);
                    } else {
                        let o = if a < bl { a } else { b };
                        let nw = if a < bl { b } else { a };
                        assert(r@[o] == before[o]);
                        assert(r@[nw] == m[nw - bl]);
                        assert(seen_baseline(fs, i as int, before[o].3));
                        let j = choose|j: int| 0 <= j < i && (#[trigger] fs[j]).3 == before[o].3;
                        assert(fs[j].3 != y);
                    }
                }
                assert forall|j: int| 0 <= j < n && seen_baseline(fs, i + 1, fs[j].3) implies #[trigger] covered(r@, fs[j]) by {
                    if seen_baseline(fs, i as int, fs[j].3) {
                        assert(covered(before, fs[j]));
                        let q = choose|q: int| 0 <= q < before.len() && contains(#[trigger] before[q], fs[j]);
                        assert(r@[q] == before[q]);
                    } else {
                        let j2 = choose|j2: int| 0 <= j2 < i + 1 && (#[trigger] fs[j2]).3 == fs[j].3;
                        assert(j2 == i);
                        fs.lemma_filter_contains(pg, j);
                        let k = choose|k: int| 0 <= k < g.len() && g[k] == fs[j];
                        assert(covered(m, g[k]));
                        let q = choose|q: int| 0 <= q < m.len() && contains(#[trigger] m[q], g[k]);
                        assert(r@[before.len() + q] == m[q]);
                    }
                }
            }
        } else {
            proof {
                assert forall|k: int| 0 <= k < r@.len() implies seen_baseline(fs, i + 1, (#[trigger] r@[k]).3) by {
                    let j = choose|j: int| 0 <= j < i && (#[trigger] fs[j]).3 == r@[k].3;
                }
                assert forall|j: int| 0 <= j < n && seen_baseline(fs, i + 1, fs[j].3) implies #[trigger] covered(r@, fs[j]) by {
                    let j2 = choose|j2: int| 0 <= j2 < i + 1 && (#[trigger] fs[j2]).3 == fs[j].3;
                    if j2 == i {
                        let j3 = choose|j3: int| 0 <= j3 < i && (#[trigger] fs[j3]).3 == y;
                        assert(seen_baseline(fs, i as int, fs[j].3));
                    } else {
                        assert(seen_baseline(fs, i as int, fs[j].3));
                    }
                }
            }
        }
        i = i + 1;
    }
    proof {
        assert forall|j: int| 0 <= j < n implies #[trigger] covered(r@, fs[j]) by {
            assert(seen_baseline(fs, n as int, fs[j].3));
        }
    }
    r
}

/// Some other box `o` of `s` has the same left and right sides as `b` and spans
/// its rows, or the same top and bottom sides and spans its columns.
pub open spec fn shares_sides_around(s: Seq<Rect>, b: Rect) -> bool {
    exists|j: int|
        0 <= j < s.len() && s[j] != b && ((#[trigger] s[j]).0 == b.0 && s[j].2 == b.2 && s[j].1 <= b.1 && b.3 <= s[j].3 || s[j].1 == b.1 && s[j].3
            == b.3 && s[j].0 <= b.0 && b.2 <= s[j].2)
}

/// Drops repeated detections of one region: a box lying inside another box that
/// shares one pair of opposite sides with it.
pub fn drop_shared_side_duplicates(boxes: &Vec<Rect>) -> (r: Vec<Rect>)
    ensures
        r@ == boxes@.filter(unshared_filter(boxes@)),
{
    let ghost p = unshared_filter(boxes@);
    let mut r: Vec<Rect> = Vec::new();
    let mut i: usize = 0;
    while i < boxes.len()
        invariant
            i <= boxes@.len(),
            p == (unshared_filter(boxes@)),
            r@ == boxes@.take(i as int).filter(p),
        decreases boxes@.len() - i,
    {
        proof {
            lemma_filter_take_step(boxes@, i as int, p);
        }
        let b = boxes[i];
        let mut found = false;
        let mut j: usize = 0;
        while j < boxes.len()
            invariant
                j <= boxes@.len(),
                found == exists|q: int|
                    0 <= q < j && boxes@[q] != b && ((#[trigger] boxes@[q]).0 == b.0 && boxes@[q].2 == b.2 && boxes@[q].1 <= b.1 && b.3 <= boxes@[q].3
                        || boxes@[q].1 == b.1 && boxes@[q].3 == b.3 && boxes@[q].0 <= b.0 && b.2 <= boxes@[q].2),
            decreases boxes@.len() - j,
        {
            let o = boxes[j];
            if !crate::geometry::same_rect(&o, &b) && (o.0 == b.0 && o.2 == b.2 && o.1 <= b.1 && b.3 <= o.3
                || o.1 == b.1 && o.3 == b.3 && o.0 <= b.0 && b.2 <= o.2) {
                found = true;
            }
            j = j + 1;
        }
        if !found {
            r.push(b);
        }
        i = i + 1;
    }
    proof {
        assert(boxes@.take(boxes@.len() as int) =~= boxes@);
    }
    r
}

/// Keeps the boxes at least `MIN_REGION_WIDTH` wide.
pub fn keep_wide(boxes: &Vec<Rect>) -> (r: Vec<Rect>)
    ensures
        r@ == boxes@.filter(wide_filter()),
{
    let ghost p = wide_filter();
    let mut r: Vec<Rect> = Vec::new();
    let mut i: usize = 0;
    while i < boxes.len()
        invariant
            i <= boxes@.len(),
            p == (wide_filter()),
            r@ == boxes@.take(i as int).filter(p),
        decreases boxes@.len() - i,
    {
        proof {
            lemma_filter_take_step(boxes@, i as int, p);
        }
        let b = boxes[i];
        if b.2 >= b.0 && b.2 - b.0 >= MIN_REGION_WIDTH {
            r.push(b);
        }
        i = i + 1;
    }
    proof {
        assert(boxes@.take(boxes@.len() as int) =~= boxes@);
    }
    r
}

/// Entries of `texts[0..n)` that overlap `b`.
pub open spec fn overlap_count(texts: Seq<Rect>, b: Rect, n: int) -> int
    decreases n,
{
    if n <= 0 {
        0
    } else {
        overlap_count(texts, b, n - 1) + if overlaps(texts[n - 1], b) { 1int } else { 0int }
    }
}

/// Keeps the regions overlapping at most `MAX_TEXT_OVERLAPS` text fragments.
pub fn few_text_overlaps(boxes: &Vec<Rect>, texts: &Vec<Rect>) -> (r: Vec<Rect>)
    ensures
        r@ == boxes@.filter(few_overlaps_filter(texts@)),
{
    let ghost p = few_overlaps_filter(texts@);
    let mut r: Vec<Rect> = Vec::new();
    let mut i: usize = 0;
    while i < boxes.len()
        invariant
            i <= boxes@.len(),
            p == (few_overlaps_filter(texts@)),
            r@ == boxes@.take(i as int).filter(p),
        decreases boxes@.len() - i,
    {
        proof {
            lemma_filter_take_step(boxes@, i as int, p);
        }
        let b = boxes[i];
        let mut count: usize = 0;
        let mut j: usize = 0;
        while j < texts.len()
            invariant
                j <= texts@.len(),
                count == overlap_count(texts@, b, j as int),
                count <= j,
            decreases texts@.len() - j,
        {
            if crate::geometry::boxes_overlap(&texts[j], &b) {
                count = count + 1;
            }
            j = j + 1;
        }
        if count <= MAX_TEXT_OVERLAPS as usize {
            r.push(b);
        }
        i = i + 1;
    }
    proof {
        assert(boxes@.take(boxes@.len() as int) =~= boxes@);
    }
    r
}

/// Some text fragment contains `b`.
pub open spec fn inside_text(texts: Seq<Rect>, b: Rect) -> bool {
    exists|j: int| 0 <= j < texts.len() && contains(#[trigger] texts[j], b)
}

/// Drops the regions lying inside a text fragment.
pub fn drop_inside_text(boxes: &Vec<Rect>, texts: &Vec<Rect>) -> (r: Vec<Rect>)
    ensures
        r@ == boxes@.filter(outside_text_filter(texts@)),
{
    let ghost p = outside_text_filter(texts@);
    let mut r: Vec<Rect> = Vec::new();
    let mut i: usize = 0;
    while i < boxes.len()
        invariant
            i <= boxes@.len(),
            p == (outside_text_filter(texts@)),
            r@ == boxes@.take(i as int).filter(p),
        decreases boxes@.len() - i,
    {
        proof {
            lemma_filter_take_step(boxes@, i as int, p);
        }
        let b = boxes[i];
        let mut found = false;
        let mut j: usize = 0;
        while j < texts.len()
            invariant
                j <= texts@.len(),
                found == exists|q: int| 0 <= q < j && contains(#[trigger] texts@[q], b),
            decreases texts@.len() - j,
        {
            let t = texts[j];
            if t.0 <= b.0 && t.1 <= b.1 && b.2 <= t.2 && b.3 <= t.3 {
                found = true;
            }
            j = j + 1;
        }
        if !found {
            r.push(b);
        }
        i = i + 1;
    }
    proof {
        assert(boxes@.take(boxes@.len() as int) =~= boxes@);
    }
    r
}

/// Wider and higher than `LARGE_IMAGE_SIZE` and clear of the `SCREEN_MARGIN`
/// band along each edge of a `w` x `h` screen.
pub open spec fn is_large(b: Rect, w: int, h: int) -> bool {
    &&& b.2 - b.0 > LARGE_IMAGE_SIZE
    &&& b.3 - b.1 > LARGE_IMAGE_SIZE
    &&& b.0 > SCREEN_MARGIN && b.2 + SCREEN_MARGIN < w
    &&& b.1 > SCREEN_MARGIN && b.3 + SCREEN_MARGIN < h
}

/// Sorts big regions into large images, small images (dense in the coarse map)
/// and plain big boxes; large images take precedence. Each list keeps the order.
pub fn classify_regions(boxes: &Vec<Rect>, map: &Vec<Vec<bool>>, image: &Bitmap) -> (r: (Vec<Rect>, Vec<Rect>, Vec<Rect>))
    requires
        is_coarse_map(map@, image),
    ensures
        r.0@ == boxes@.filter(plain_filter(image)),
        r.1@ == boxes@.filter(small_filter(image)),
        r.2@ == boxes@.filter(large_filter(image)),
{
    let w = image.width;
    let h = image.height;
    let mut plain: Vec<Rect> = Vec::new();
    let mut small: Vec<Rect> = Vec::new();
    let mut large: Vec<Rect> = Vec::new();
    let mut i: usize = 0;
    while i < boxes.len()
        invariant
            is_coarse_map(map@, image),
            w == image.width,
            h == image.height,
            i <= boxes@.len(),
            plain@ == boxes@.take(i as int).filter(plain_filter(image)),
            small@ == boxes@.take(i as int).filter(small_filter(image)),
            large@ == boxes@.take(i as int).filter(large_filter(image)),
        decreases boxes@.len() - i,
    {
        proof {
            lemma_filter_take_step(boxes@, i as int, plain_filter(image));
            lemma_filter_take_step(boxes@, i as int, small_filter(image));
            lemma_filter_take_step(boxes@, i as int, large_filter(image));
        }
        let b = boxes[i];
        let large_one = b.2 > b.0 && b.2 - b.0 > LARGE_IMAGE_SIZE && b.3 > b.1 && b.3 - b.1 > LARGE_IMAGE_SIZE
            && b.0 > SCREEN_MARGIN && (b.2 as u64) + (SCREEN_MARGIN as u64) < w as u64 && b.1 > SCREEN_MARGIN
            && (b.3 as u64) + (SCREEN_MARGIN as u64) < h as u64;
        if large_one {
            large.push(b);
        } else if is_dense(map, image, b) {
            small.push(b);
        } else {
            plain.push(b);
        }
        i = i + 1;
    }
    proof {
        assert(boxes@.take(boxes@.len() as int) =~= boxes@);
    }
    (plain, small, large)
}

/// Trimming a bounded sequence keeps it bounded.
pub proof fn lemma_trim_bounded(bm: &Bitmap, s: Seq<Rect>, w: u32, h: u32)
    requires
        bounded(s, w, h),
    ensures
        bounded(s.filter_map(trim_fn(bm)), w, h),
{
    let f = trim_fn(bm);
    let r = s.filter_map(f);
    assert forall|k: int| 0 <= k < r.len() implies is_proper(#[trigger] r[k]) && contains((0u32, 0u32, w, h), r[k]) by {
        assert(r.contains(r[k]));
        s.lemma_filter_map_contains(f, r[k]);
        let t = choose|t: Rect| #[trigger] s.contains(t) && f(t) == Some(r[k]);
        let j = choose|j: int| 0 <= j < s.len() && s[j] == t;
        lemma_trim_within(bm, t);
        assert(contains((0u32, 0u32, w, h), s[j]));
    }
}

/// The fragments of `s[0..i)` merged per baseline: each baseline, at its first
/// appearance, contributes the outermost boxes of its fragments merged to a
/// fixpoint within `FRAGMENT_MERGE_PADDING`.
pub open spec fn fragment_groups(s: Seq<Rect>, i: int) -> Seq<Rect>
    decreases i,
{
    if i <= 0 {
        Seq::empty()
    } else {
        let prev = fragment_groups(s, i - 1);
        let y = s[i - 1].3;
        if seen_baseline(s, i - 1, y) {
            prev
        } else {
            prev + outermost(merged(s.filter(baseline_filter(y)), FRAGMENT_MERGE_PADDING as int, 0))
        }
    }
}

/// All fragments of `s` merged per baseline (see `fragment_groups`).
pub open spec fn merged_fragments(s: Seq<Rect>) -> Seq<Rect> {
    fragment_groups(s, s.len() as int)
}

/// `c` lists exactly the validated candidate boxes of `bm` (in some order).
pub open spec fn candidate_list(bm: &Bitmap, c: Seq<Rect>) -> bool {
    forall|b: Rect| #[trigger] c.contains(b) <==> is_candidate(
        image_edges(bm, Direction::Horizontal),
        image_edges(bm, Direction::Vertical),
        b,
    ) && !flat_border(bm, b)
}

/// The text fragments that candidates `c` of `bm` yield: the low candidates
/// merged per baseline, trimmed, split at wide flat gaps, trimmed again, and
/// reduced to the outermost boxes.
pub open spec fn text_fragments(bm: &Bitmap, c: Seq<Rect>) -> Seq<Rect> {
    let trimmed = trimmed_all(bm, merged_fragments(c.filter(fragment_filter())));
    let parts = split_all(bm, trimmed, trimmed.len() as int);
    outermost(trimmed_all(bm, parts))
}

/// The big regions that candidates `c` of `bm` yield: the high candidates
/// without repeated detections, reduced to the outermost, merged within
/// `REGION_MERGE_PADDING`, the narrow ones and those overlapping more than
/// `MAX_TEXT_OVERLAPS` text fragments dropped, trimmed, those inside a text
/// fragment dropped, and reduced to the outermost again.
pub open spec fn big_regions(bm: &Bitmap, c: Seq<Rect>) -> Seq<Rect> {
    let texts = text_fragments(bm, c);
    let big = c.filter(region_filter());
    let b3 = merged(outermost(big.filter(unshared_filter(big))), REGION_MERGE_PADDING as int, 0);
    let b5 = b3.filter(wide_filter()).filter(few_overlaps_filter(texts));
    outermost(trimmed_all(bm, b5).filter(outside_text_filter(texts)))
}

/// A box inside another overlaps every text box the other one overlaps, at most.
proof fn lemma_overlap_count_mono(texts: Seq<Rect>, t: Rect, b: Rect, n: int)
    requires
        contains(b, t),
        0 <= n <= texts.len(),
    ensures
        overlap_count(texts, t, n) <= overlap_count(texts, b, n),
    decreases n,
{
    if n > 0 {
        lemma_overlap_count_mono(texts, t, b, n - 1);
    }
}

/// Text fragments and big regions of the image, exactly `text_fragments` and
/// `big_regions` of its validated candidates. Every box lies in the image, no
/// box of either list lies strictly inside another of the same list, no region
/// lies inside a fragment, and every region overlaps at most
/// `MAX_TEXT_OVERLAPS` fragments.
pub fn find_bounding_boxes_v2(image: &Bitmap) -> (r: (Vec<Rect>, Vec<Rect>))
    requires
        image.wf(),
    ensures
        exists|c: Seq<Rect>|
            candidate_list(image, c) && r.0@ == text_fragments(image, c) && r.1@ == big_regions(image, c),
        bounded(r.0@, image.width, image.height),
        bounded(r.1@, image.width, image.height),
        antichain(r.0@),
        antichain(r.1@),
        forall|k: int| 0 <= k < r.1@.len() ==> !inside_text(r.0@, #[trigger] r.1@[k]),
        forall|k: int| 0 <= k < r.1@.len() ==> overlap_count(r.0@, #[trigger] r.1@[k], r.0@.len() as int) <= MAX_TEXT_OVERLAPS,
{
    let w = image.width;
    let h = image.height;
    let ghost bb: Rect = (0u32, 0u32, w, h);
    let cands = find_candidate_boxes(image);
    proof {
        assert forall|k: int| 0 <= k < cands@.len() implies is_proper(#[trigger] cands@[k]) && contains(bb, cands@[k]) by {
            assert(fits_inside(cands@[k], w as int, h as int));
        }
    }
    let (small, big) = split_by_height(&cands);
    proof {
        lemma_filter_bounded(cands@, fragment_filter(), w, h);
        lemma_filter_bounded(cands@, region_filter(), w, h);
    }
    let merged = merge_fragments(&small);
    let trimmed = remove_box_padding(image, merged);
    proof {
        lemma_trim_bounded(image, merged@, w, h);
        assert forall|k: int| 0 <= k < trimmed@.len() implies is_proper(#[trigger] trimmed@[k]) && trimmed@[k].2 <= w && trimmed@[k].3 <= h by {
            assert(contains(bb, trimmed@[k]));
        }
    }
    let parts = split_boxes_at_gaps(image, &trimmed);
    proof {
        lemma_within_bounded(parts@, trimmed@, w, h);
    }
    let retrimmed = remove_box_padding(image, parts);
    proof {
        lemma_trim_bounded(image, parts@, w, h);
    }
    let fragments = filter_children(retrimmed);
    proof {
        lemma_filter_bounded(retrimmed@, no_outer(retrimmed@), w, h);
        lemma_filter_children_antichain(retrimmed@);
        assert(fragments@ == text_fragments(image, cands@));
    }
    let b1 = drop_shared_side_duplicates(&big);
    proof {
        lemma_filter_bounded(big@, unshared_filter(big@), w, h);
    }
    let b2 = filter_children(b1);
    proof {
        lemma_filter_bounded(b1@, no_outer(b1@), w, h);
    }
    let b3 = merge_boxes(b2, REGION_MERGE_PADDING, 0);
    proof {
        assert(all_inside(b2@, bb));
    }
    let b4 = keep_wide(&b3);
    proof {
        lemma_filter_bounded(b3@, wide_filter(), w, h);
    }
    let b5 = few_text_overlaps(&b4, &fragments);
    proof {
        lemma_filter_bounded(b4@, few_overlaps_filter(fragments@), w, h);
        assert forall|k: int| 0 <= k < b5@.len() implies (#[trigger] b5@[k]).2 <= w && b5@[k].3 <= h by {
            assert(contains(bb, b5@[k]));
        }
    }
    let b6 = remove_box_padding(image, b5);
    proof {
        lemma_trim_bounded(image, b5@, w, h);
    }
    let b7 = drop_inside_text(&b6, &fragments);
    let regions = filter_children(b7);
    proof {
        let p = outside_text_filter(fragments@);
        let q = no_outer(b7@);
        lemma_filter_bounded(b6@, p, w, h);
        lemma_filter_bounded(b7@, q, w, h);
        lemma_filter_children_antichain(b7@);
        assert(regions@ == big_regions(image, cands@));
        assert forall|k: int| 0 <= k < regions@.len() implies !inside_text(fragments@, #[trigger] regions@[k])
            && overlap_count(fragments@, regions@[k], fragments@.len() as int) <= MAX_TEXT_OVERLAPS by {
            assert(regions@.contains(regions@[k]));
            b7@.lemma_filter_contains_rev(q, regions@[k]);
            let j = choose|j: int| 0 <= j < b7@.len() && b7@[j] == regions@[k];
            b6@.lemma_filter_pred(p, j);
            assert(b7@.contains(b7@[j]));
            b6@.lemma_filter_contains_rev(p, b7@[j]);
            assert(b6@.contains(regions@[k]));
            b5@.lemma_filter_map_contains(trim_fn(image), regions@[k]);
            let t = choose|t: Rect| #[trigger] b5@.contains(t) && trim_fn(image)(t) == Some(regions@[k]);
            lemma_trim_within(image, t);
            let m = choose|m: int| 0 <= m < b5@.len() && b5@[m] == t;
            b4@.lemma_filter_pred(few_overlaps_filter(fragments@), m);
            lemma_overlap_count_mono(fragments@, regions@[k], t, fragments@.len() as int);
        }
        assert(candidate_list(image, cands@));
    }
    (fragments, regions)
}

/// Everything the overlay can offer for one screenshot.
pub struct Segmentation {
    /// Text fragments, no one strictly inside another.
    pub fragments: Vec<Rect>,
    /// Text lines assembled from the fragments.
    pub lines: Vec<Rect>,
    /// All big regions, before they are sorted into the next three lists.
    pub regions: Vec<Rect>,
    /// Big regions that are neither small nor large images.
    pub big_boxes: Vec<Rect>,
    /// Big regions dense in the coarse edge map.
    pub small_images: Vec<Rect>,
    /// Big regions larger than `LARGE_IMAGE_SIZE` each way, clear of the margin.
    pub large_images: Vec<Rect>,
    /// Link-coloured spans of the lines.
    pub links: Vec<Rect>,
}

/// Segments one screenshot. `link_mask` flags, row-major, the pixels whose hue
/// and saturation look like a hyperlink. The fragments and regions are those of
/// `find_bounding_boxes_v2`; the lines, links and the three region classes
/// follow from them exactly.
pub fn segment(image: &Bitmap, link_mask: &Vec<bool>) -> (r: Segmentation)
    requires
        image.wf(),
        link_mask@.len() == image.width as int * image.height as int,
    ensures
        exists|c: Seq<Rect>|
            candidate_list(image, c) && r.fragments@ == text_fragments(image, c) && r.regions@ == big_regions(image, c),
        r.lines@ == line_boxes(r.fragments@),
        r.links@ == links_upto(r.lines@, link_mask@, image.width as int, r.lines@.len() as int),
        r.big_boxes@ == r.regions@.filter(plain_filter(image)),
        r.small_images@ == r.regions@.filter(small_filter(image)),
        r.large_images@ == r.regions@.filter(large_filter(image)),
        bounded(r.fragments@, image.width, image.height),
        bounded(r.lines@, image.width, image.height),
        bounded(r.regions@, image.width, image.height),
        bounded(r.big_boxes@, image.width, image.height),
        bounded(r.small_images@, image.width, image.height),
        bounded(r.large_images@, image.width, image.height),
        bounded(r.links@, image.width, image.height),
        antichain(r.fragments@),
        antichain(r.regions@),
        forall|k: int| 0 <= k < r.regions@.len() ==> !inside_text(r.fragments@, #[trigger] r.regions@[k]),
{
    let w = image.width;
    let h = image.height;
    let ghost bb: Rect = (0u32, 0u32, w, h);
    let (fragments, regions) = find_bounding_boxes_v2(image);
    let lines = assemble_lines(&fragments);
    proof {
        lemma_line_boxes_bounded(fragments@, w, h);
        assert forall|i: int| 0 <= i < lines@.len() implies (#[trigger] lines@[i]).0 <= lines@[i].2 <= w && lines@[i].1 <= lines@[i].3 <= h by {
            assert(is_proper(lines@[i]) && contains(bb, lines@[i]));
        }
    }
    let links = find_links(&lines, link_mask, w, h);
    proof {
        lemma_links_bounded(lines@, link_mask@, w as int, lines@.len() as int, w, h);
    }
    let map = coarse_edge_map(image);
    let (plain, small, large) = classify_regions(&regions, &map, image);
    proof {
        lemma_filter_bounded(regions@, plain_filter(image), w, h);
        lemma_filter_bounded(regions@, small_filter(image), w, h);
        lemma_filter_bounded(regions@, large_filter(image), w, h);
    }
    Segmentation { fragments, lines, regions, big_boxes: plain, small_images: small, large_images: large, links }
}

} // verus!
