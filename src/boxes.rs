use vstd::prelude::*;
use crate::bitmap::Bitmap;
use crate::edges::{Direction, Edge, EdgeType, all_of_color, is_all_of_color, nested};
use crate::geometry::{Rect, lemma_filter_take_step};
use rayon::iter::{IntoParallelIterator, IntoParallelRefIterator, ParallelIterator};

verus! {

/// Narrowest candidate box kept.
pub const MIN_BOX_WIDTH: u32 = 5;

/// Lowest candidate box kept.
pub const MIN_BOX_HEIGHT: u32 = 12;

/// Length of the strips that the validator samples along each side.
pub const BORDER_STRIP: u32 = 40;

/// An edge placed in the image: `(line, start, end, type)`; for a horizontal edge
/// the line is its row and the span its columns, for a vertical one the reverse.
pub type Placed = (u32, u32, u32, EdgeType);

/// The edges of `lines[0..n)`, line by line, each tagged with its line index.
pub open spec fn placed_upto(lines: Seq<Seq<Edge>>, n: int) -> Seq<Placed>
    decreases n,
{
    if n <= 0 {
        Seq::empty()
    } else {
        placed_upto(lines, n - 1) + Seq::new(
            lines[n - 1].len(),
            |k: int| ((n - 1) as u32, lines[n - 1][k].0, lines[n - 1][k].1, lines[n - 1][k].2),
        )
    }
}

/// A horizontal edge and a vertical edge cross strictly inside both spans.
pub open spec fn crosses(h: Placed, v: Placed) -> bool {
    v.1 < h.0 < v.2 && h.1 < v.0 < h.2
}

/// `a` and `b` cross, `a` being the horizontal one when `a_is_h`.
pub open spec fn linked(a: Placed, b: Placed, a_is_h: bool) -> bool {
    if a_is_h { crosses(a, b) } else { crosses(b, a) }
}

/// `adj[i]` lists exactly the positions of `to` whose edges cross `from[i]`.
pub open spec fn adjacency_of(adj: Seq<Vec<usize>>, from: Seq<Placed>, to: Seq<Placed>, from_is_h: bool) -> bool {
    &&& adj.len() == from.len()
    &&& forall|i: int, k: int| 0 <= i < adj.len() && 0 <= k < adj[i]@.len() ==> (#[trigger] adj[i]@[k]) < to.len()
    &&& forall|i: int, t: usize|
        0 <= i < adj.len() && t < to.len() ==> (#[trigger] adj[i]@.contains(t) <==> linked(
            from[i],
            to[t as int],
            from_is_h,
        ))
}

/// Top edge `t`, left edge `l`, right edge `r` and bottom edge `b` bound a box:
/// the top is a `Before` edge and the bottom an `After` edge, the left side is
/// `Before` or `Both` and the right side `After` or `Both`, each horizontal edge
/// crosses both vertical ones, and the box is at least `MIN_BOX_WIDTH` wide and
/// `MIN_BOX_HEIGHT` high.
pub open spec fn valid_quad(hs: Seq<Placed>, vs: Seq<Placed>, t: int, l: int, r: int, b: int) -> bool {
    &&& 0 <= t < hs.len() && 0 <= b < hs.len() && 0 <= l < vs.len() && 0 <= r < vs.len()
    &&& hs[t].3 == EdgeType::Before
    &&& hs[b].3 == EdgeType::After
    &&& (vs[l].3 == EdgeType::Before || vs[l].3 == EdgeType::Both)
    &&& (vs[r].3 == EdgeType::After || vs[r].3 == EdgeType::Both)
    &&& crosses(hs[t], vs[l]) && crosses(hs[t], vs[r])
    &&& crosses(hs[b], vs[l]) && crosses(hs[b], vs[r])
    &&& vs[l].0 < vs[r].0 && hs[t].0 < hs[b].0
    &&& vs[r].0 - vs[l].0 >= MIN_BOX_WIDTH
    &&& hs[b].0 - hs[t].0 >= MIN_BOX_HEIGHT
}

/// The box that four edges bound.
pub open spec fn quad_box(hs: Seq<Placed>, vs: Seq<Placed>, t: int, l: int, r: int, b: int) -> Rect {
    (vs[l].0, hs[t].0, vs[r].0, hs[b].0)
}

/// `bx` is bounded by some valid quadruple of edges.
pub open spec fn is_candidate(hs: Seq<Placed>, vs: Seq<Placed>, bx: Rect) -> bool {
    exists|t: int, l: int, r: int, b: int|
        #[trigger] valid_quad(hs, vs, t, l, r, b) && quad_box(hs, vs, t, l, r, b) == bx
}

pub proof fn lemma_push_contains<A>(s: Seq<A>, v: A, x: A)
    ensures
        s.push(v).contains(x) <==> (s.contains(x) || x == v),
{
    if s.contains(x) {
        let i = choose|i: int| 0 <= i < s.len() && s[i] == x;
        assert(s.push(v)[i] == x);
    }
    if x == v {
        assert(s.push(v)[s.len() as int] == v);
    }
    if s.push(v).contains(x) {
        let i = choose|i: int| 0 <= i < s.push(v).len() && s.push(v)[i] == x;
        if i < s.len() {
            assert(s[i] == x);
        }
    }
}

/// Gives every edge a position in one list, line by line.
pub fn place_edges(lines: &Vec<Vec<Edge>>) -> (r: Vec<Placed>)
    requires
        lines@.len() <= u32::MAX,
    ensures
        r@ == placed_upto(nested(lines@), lines@.len() as int),
{
    let mut r: Vec<Placed> = Vec::new();
    let mut i: usize = 0;
    while i < lines.len()
        invariant
            lines@.len() <= u32::MAX,
            i <= lines@.len(),
            r@ == placed_upto(nested(lines@), i as int),
        decreases lines@.len() - i,
    {
        let line = &lines[i];
        let ghost base = r@;
        let mut k: usize = 0;
        while k < line.len()
            invariant
                lines@.len() <= u32::MAX,
                i < lines@.len(),
                line@ == lines@[i as int]@,
                k <= line@.len(),
                r@ == base + Seq::new(
                    k as nat,
                    |q: int| (i as u32, line@[q].0, line@[q].1, line@[q].2),
                ),
            decreases line@.len() - k,
        {
            let e = line[k];
            r.push((i as u32, e.0, e.1, e.2));
            proof {
                assert(r@ =~= base + Seq::new(
                    (k + 1) as nat,
                    |q: int| (i as u32, line@[q].0, line@[q].1, line@[q].2),
                ));
            }
            k = k + 1;
        }
        proof {
            assert(nested(lines@)[i as int] == line@);
            assert(r@ =~= placed_upto(nested(lines@), i + 1));
        }
        i = i + 1;
    }
    r
}

fn crosses_exec(h: &Placed, v: &Placed) -> (r: bool)
    ensures
        r == crosses(*h, *v),
{
    v.1 < h.0 && h.0 < v.2 && h.1 < v.0 && v.0 < h.2
}

/// For each edge of `from`, the positions of the edges of `to` that cross it,
/// in increasing order.
pub fn build_adjacency(from: &Vec<Placed>, to: &Vec<Placed>, from_is_h: bool) -> (r: Vec<Vec<usize>>)
    ensures
        adjacency_of(r@, from@, to@, from_is_h),
{
    let mut r: Vec<Vec<usize>> = Vec::new();
    let mut i: usize = 0;
    while i < from.len()
        invariant
            i <= from@.len(),
            r@.len() == i,
            forall|a: int, k: int| 0 <= a < i && 0 <= k < r@[a]@.len() ==> (#[trigger] r@[a]@[k]) < to@.len(),
            forall|a: int, t: usize|
                0 <= a < i && t < to@.len() ==> (#[trigger] r@[a]@.contains(t) <==> linked(
                    from@[a],
                    to@[t as int],
                    from_is_h,
                )),
        decreases from@.len() - i,
    {
        let mut list: Vec<usize> = Vec::new();
        let mut t: usize = 0;
        while t < to.len()
            invariant
                i < from@.len(),
                t <= to@.len(),
                forall|k: int| 0 <= k < list@.len() ==> (#[trigger] list@[k]) < t,
                forall|u: usize|
                    u < to@.len() ==> (#[trigger] list@.contains(u) <==> (u < t && linked(
                        from@[i as int],
                        to@[u as int],
                        from_is_h,
                    ))),
            decreases to@.len() - t,
        {
            let hit = if from_is_h {
                crosses_exec(&from[i], &to[t])
            } else {
                crosses_exec(&to[t], &from[i])
            };
            if hit {
                let ghost before = list@;
                list.push(t);
                proof {
                    assert forall|u: usize| u < to@.len() implies (#[trigger] list@.contains(u) <==> (u
                        < t + 1 && linked(from@[i as int], to@[u as int], from_is_h))) by {
                        lemma_push_contains(before, t, u);
                        if before.contains(u) {
                            let k = choose|k: int| 0 <= k < before.len() && before[k] == u;
                            assert(before[k] < t);
                        }
                    }
                }
            } else {
                proof {
                    assert forall|u: usize| u < to@.len() implies (#[trigger] list@.contains(u) <==> (u
                        < t + 1 && linked(from@[i as int], to@[u as int], from_is_h))) by {
                        if list@.contains(u) {
                            let k = choose|k: int| 0 <= k < list@.len() && list@[k] == u;
                            assert(list@[k] < t);
                        }
                    }
                }
            }
            t = t + 1;
        }
        r.push(list);
        proof {
            assert(r@[i as int] == list);
        }
        i = i + 1;
    }
    r
}

fn contains_id(list: &Vec<usize>, x: usize) -> (r: bool)
    ensures
        r == list@.contains(x),
{
    let mut k: usize = 0;
    while k < list.len()
        invariant
            k <= list@.len(),
            forall|q: int| 0 <= q < k ==> list@[q] != x,
        decreases list@.len() - k,
    {
        if list[k] == x {
            return true;
        }
        k = k + 1;
    }
    false
}

/// Every valid quadruple with top `ht` whose left edge is listed before
/// position `a` of `adj` has its box in `r`.
pub open spec fn found_upto(
    r: Seq<Rect>,
    hs: Seq<Placed>,
    vs: Seq<Placed>,
    adj: Seq<usize>,
    ht: int,
    a: int,
) -> bool {
    forall|a2: int, rr: int, b: int|
        0 <= a2 < a && 0 <= a2 < adj.len() && #[trigger] valid_quad(hs, vs, ht, adj[a2] as int, rr, b)
            ==> r.contains(quad_box(hs, vs, ht, adj[a2] as int, rr, b))
}

/// `bx` is bounded by a valid quadruple whose top edge is `ht`.
pub open spec fn top_candidate(hs: Seq<Placed>, vs: Seq<Placed>, ht: int, bx: Rect) -> bool {
    exists|l: int, r: int, b: int| #[trigger] valid_quad(hs, vs, ht, l, r, b) && quad_box(hs, vs, ht, l, r, b) == bx
}

/// All boxes of `r` have top edge `ht`.
pub open spec fn all_from_top(r: Seq<Rect>, hs: Seq<Placed>, vs: Seq<Placed>, ht: int) -> bool {
    forall|k: int| 0 <= k < r.len() ==> top_candidate(hs, vs, ht, #[trigger] r[k])
}

/// The candidate boxes whose top is edge `ht`: for each pair of vertical edges
/// crossing it (left `Before`/`Both`, right `After`/`Both`), every `After`
/// bottom edge crossing both verticals closes a box, kept when it is at least
/// `MIN_BOX_WIDTH` x `MIN_BOX_HEIGHT`. None unless `ht` is a `Before` edge.
pub fn boxes_from_top(
    hs: &Vec<Placed>,
    vs: &Vec<Placed>,
    h_adj: &Vec<Vec<usize>>,
    v_adj: &Vec<Vec<usize>>,
    ht: usize,
) -> (r: Vec<Rect>)
    requires
        adjacency_of(h_adj@, hs@, vs@, true),
        adjacency_of(v_adj@, vs@, hs@, false),
        ht < hs@.len(),
    ensures
        forall|bx: Rect| r@.contains(bx) <==> top_candidate(hs@, vs@, ht as int, bx),
{
    let ghost H = hs@;
    let ghost V = vs@;
    let nh: usize = hs.len();
    let nv: usize = vs.len();
    let mut r: Vec<Rect> = Vec::new();
    if hs[ht].3 == EdgeType::Before {
        let adj = &h_adj[ht];
        let mut a: usize = 0;
        while a < adj.len()
            invariant
                H == hs@,
                V == vs@,
                nh == H.len(),
                nv == V.len(),
                adjacency_of(h_adj@, H, V, true),
                adjacency_of(v_adj@, V, H, false),
                ht < H.len(),
                H[ht as int].3 == EdgeType::Before,
                adj@ == h_adj@[ht as int]@,
                a <= adj@.len(),
                all_from_top(r@, H, V, ht as int),
                found_upto(r@, H, V, adj@, ht as int, a as int),
            decreases adj@.len() - a,
        {
            let vl = adj[a];
            let kl = vs[vl].3;
            if kl == EdgeType::Before || kl == EdgeType::Both {
                let mut bi: usize = 0;
                while bi < adj.len()
                    invariant
                        H == hs@,
                        V == vs@,
                        nh == H.len(),
                        nv == V.len(),
                        adjacency_of(h_adj@, H, V, true),
                        adjacency_of(v_adj@, V, H, false),
                        ht < H.len(),
                        H[ht as int].3 == EdgeType::Before,
                        adj@ == h_adj@[ht as int]@,
                        a < adj@.len(),
                        vl == adj@[a as int],
                        vl < V.len(),
                        V[vl as int].3 == EdgeType::Before || V[vl as int].3 == EdgeType::Both,
                        bi <= adj@.len(),
                        all_from_top(r@, H, V, ht as int),
                        found_upto(r@, H, V, adj@, ht as int, a as int),
                        forall|b2: int, b: int|
                            0 <= b2 < bi && #[trigger] valid_quad(H, V, ht as int, vl as int, adj@[b2] as int, b)
                                ==> r@.contains(quad_box(H, V, ht as int, vl as int, adj@[b2] as int, b)),
                    decreases adj@.len() - bi,
                {
                    let vr = adj[bi];
                    let kr = vs[vr].3;
                    if kr == EdgeType::After || kr == EdgeType::Both {
                        let l1 = &v_adj[vl];
                        let l2 = &v_adj[vr];
                        let mut c: usize = 0;
                        while c < l1.len()
                            invariant
                                H == hs@,
                                V == vs@,
                                nh == H.len(),
                                nv == V.len(),
                                adjacency_of(h_adj@, H, V, true),
                                adjacency_of(v_adj@, V, H, false),
                                ht < H.len(),
                                adj@ == h_adj@[ht as int]@,
                                a < adj@.len(),
                                bi < adj@.len(),
                                vl == adj@[a as int],
                                vr == adj@[bi as int],
                                vl < V.len(),
                                vr < V.len(),
                                H[ht as int].3 == EdgeType::Before,
                                V[vl as int].3 == EdgeType::Before || V[vl as int].3 == EdgeType::Both,
                                V[vr as int].3 == EdgeType::After || V[vr as int].3 == EdgeType::Both,
                                l1@ == v_adj@[vl as int]@,
                                l2@ == v_adj@[vr as int]@,
                                c <= l1@.len(),
                                all_from_top(r@, H, V, ht as int),
                                found_upto(r@, H, V, adj@, ht as int, a as int),
                                forall|b2: int, b: int|
                                    0 <= b2 < bi && #[trigger] valid_quad(H, V, ht as int, vl as int, adj@[b2] as int, b)
                                        ==> r@.contains(quad_box(H, V, ht as int, vl as int, adj@[b2] as int, b)),
                                forall|c2: int|
                                    0 <= c2 < c && #[trigger] valid_quad(H, V, ht as int, vl as int, vr as int, l1@[c2] as int)
                                        ==> r@.contains(quad_box(H, V, ht as int, vl as int, vr as int, l1@[c2] as int)),
                            decreases l1@.len() - c,
                        {
                            let hb = l1[c];
                            if hs[hb].3 == EdgeType::After && contains_id(l2, hb) {
                                let x0 = vs[vl].0;
                                let y0 = hs[ht].0;
                                let x1 = vs[vr].0;
                                let y1 = hs[hb].0;
                                if x0 < x1 && y0 < y1 && x1 - x0 >= MIN_BOX_WIDTH && y1 - y0 >= MIN_BOX_HEIGHT {
                                    let ghost before = r@;
                                    let bx: Rect = (x0, y0, x1, y1);
                                    proof {
                                        assert(v_adj@[vl as int]@[c as int] == hb);
                                        assert(hb < H.len());
                                        assert(l1@.contains(hb));
                                        assert(v_adj@[vl as int]@.contains(hb));
                                        assert(crosses(H[hb as int], V[vl as int]));
                                        assert(v_adj@[vr as int]@.contains(hb));
                                        assert(crosses(H[hb as int], V[vr as int]));
                                        assert(h_adj@[ht as int]@.contains(vl));
                                        assert(h_adj@[ht as int]@.contains(vr));
                                        assert(valid_quad(H, V, ht as int, vl as int, vr as int, hb as int));
                                    }
                                    r.push(bx);
                                    proof {
                                        lemma_found_push(before, bx, H, V, adj@, ht as int, a as int);
                                        assert forall|b2: int, b: int|
                                            0 <= b2 < bi && #[trigger] valid_quad(H, V, ht as int, vl as int, adj@[b2] as int, b)
                                                implies r@.contains(quad_box(H, V, ht as int, vl as int, adj@[b2] as int, b)) by {
                                            lemma_push_contains(before, bx, quad_box(H, V, ht as int, vl as int, adj@[b2] as int, b));
                                        }
                                        assert forall|c2: int|
                                            0 <= c2 < c + 1 && #[trigger] valid_quad(H, V, ht as int, vl as int, vr as int, l1@[c2] as int)
                                                implies r@.contains(quad_box(H, V, ht as int, vl as int, vr as int, l1@[c2] as int)) by {
                                            lemma_push_contains(before, bx, quad_box(H, V, ht as int, vl as int, vr as int, l1@[c2] as int));
                                        }
                                        assert forall|k: int| 0 <= k < r@.len() implies top_candidate(H, V, ht as int, #[trigger] r@[k]) by {
                                            if k < before.len() {
                                                assert(r@[k] == before[k]);
                                            } else {
                                                assert(r@[k] == quad_box(H, V, ht as int, vl as int, vr as int, hb as int));
                                            }
                                        }
                                    }
                                }
                            }
                            c = c + 1;
                        }
                        proof {
                            assert forall|b: int| #[trigger] valid_quad(H, V, ht as int, vl as int, vr as int, b)
                                implies r@.contains(quad_box(H, V, ht as int, vl as int, vr as int, b)) by {
                                assert(linked(V[vl as int], H[b], false));
                                assert(v_adj@[vl as int]@.contains(b as usize));
                                let c2 = choose|c2: int| 0 <= c2 < l1@.len() && l1@[c2] == b as usize;
                                assert(valid_quad(H, V, ht as int, vl as int, vr as int, l1@[c2] as int));
                            }
                        }
                    }
                    proof {
                        assert forall|b2: int, b: int|
                            0 <= b2 < bi + 1 && #[trigger] valid_quad(H, V, ht as int, vl as int, adj@[b2] as int, b)
                                implies r@.contains(quad_box(H, V, ht as int, vl as int, adj@[b2] as int, b)) by {
                            if b2 == bi {
                                assert(valid_quad(H, V, ht as int, vl as int, vr as int, b));
                            }
                        }
                    }
                    bi = bi + 1;
                }
                proof {
                    assert forall|rr: int, b: int| #[trigger] valid_quad(H, V, ht as int, vl as int, rr, b)
                        implies r@.contains(quad_box(H, V, ht as int, vl as int, rr, b)) by {
                        assert(h_adj@[ht as int]@.contains(rr as usize));
                        let b2 = choose|b2: int| 0 <= b2 < adj@.len() && adj@[b2] == rr as usize;
                        assert(valid_quad(H, V, ht as int, vl as int, adj@[b2] as int, b));
                    }
                }
            }
            proof {
                assert forall|a2: int, rr: int, b: int|
                    0 <= a2 < a + 1 && 0 <= a2 < adj@.len() && #[trigger] valid_quad(H, V, ht as int, adj@[a2] as int, rr, b)
                        implies r@.contains(quad_box(H, V, ht as int, adj@[a2] as int, rr, b)) by {
                    if a2 == a {
                        assert(valid_quad(H, V, ht as int, vl as int, rr, b));
                    }
                }
            }
            a = a + 1;
        }
        proof {
            assert forall|l: int, rr: int, b: int| #[trigger] valid_quad(H, V, ht as int, l, rr, b) implies r@.contains(
                quad_box(H, V, ht as int, l, rr, b),
            ) by {
                assert(h_adj@[ht as int]@.contains(l as usize));
                let a2 = choose|a2: int| 0 <= a2 < adj@.len() && adj@[a2] == l as usize;
                assert(valid_quad(H, V, ht as int, adj@[a2] as int, rr, b));
            }
        }
    }
    proof {
        assert forall|bx: Rect| r@.contains(bx) <==> top_candidate(H, V, ht as int, bx) by {
            if r@.contains(bx) {
                let k = choose|k: int| 0 <= k < r@.len() && r@[k] == bx;
                assert(top_candidate(H, V, ht as int, r@[k]));
            }
            if top_candidate(H, V, ht as int, bx) {
                let (l, rr, b) = choose|l: int, rr: int, b: int|
                    #[trigger] valid_quad(H, V, ht as int, l, rr, b) && quad_box(H, V, ht as int, l, rr, b) == bx;
                assert(valid_quad(H, V, ht as int, l, rr, b));
            }
        }
    }
    r
}

/// The candidate boxes of every top edge, top edges processed in parallel.
/// Relies on rayon: `into_par_iter` over a `usize` range is an indexed parallel
/// iterator, `map` keeps it indexed, and `collect` into a `Vec` writes each item
/// at its index; the closure only calls the verified `boxes_from_top`.
#[verifier::external_body]
fn boxes_per_top_in_parallel(
    hs: &Vec<Placed>,
    vs: &Vec<Placed>,
    h_adj: &Vec<Vec<usize>>,
    v_adj: &Vec<Vec<usize>>,
) -> (r: Vec<Vec<Rect>>)
    requires
        adjacency_of(h_adj@, hs@, vs@, true),
        adjacency_of(v_adj@, vs@, hs@, false),
    ensures
        r@.len() == hs@.len(),
        forall|t: int, bx: Rect| 0 <= t < r@.len() ==> (#[trigger] r@[t]@.contains(bx) <==> top_candidate(hs@, vs@, t, bx)),
{
    (0..hs.len()).into_par_iter().map(|t| boxes_from_top(hs, vs, h_adj, v_adj, t)).collect()
}

/// Candidate boxes: every box that a valid quadruple of edges bounds (see
/// `valid_quad`), top edges examined in parallel. A box may be listed more than
/// once.
pub fn construct_boxes(
    hs: &Vec<Placed>,
    vs: &Vec<Placed>,
    h_adj: &Vec<Vec<usize>>,
    v_adj: &Vec<Vec<usize>>,
) -> (r: Vec<Rect>)
    requires
        adjacency_of(h_adj@, hs@, vs@, true),
        adjacency_of(v_adj@, vs@, hs@, false),
    ensures
        forall|bx: Rect| r@.contains(bx) <==> is_candidate(hs@, vs@, bx),
{
    let ghost H = hs@;
    let ghost V = vs@;
    let tops = boxes_per_top_in_parallel(hs, vs, h_adj, v_adj);
    let mut r: Vec<Rect> = Vec::new();
    let mut t: usize = 0;
    while t < tops.len()
        invariant
            H == hs@,
            V == vs@,
            tops@.len() == H.len(),
            forall|q: int, bx: Rect| 0 <= q < tops@.len() ==> (#[trigger] tops@[q]@.contains(bx) <==> top_candidate(H, V, q, bx)),
            t <= tops@.len(),
            forall|bx: Rect| #[trigger] r@.contains(bx) <==> exists|q: int| 0 <= q < t && top_candidate(H, V, q, bx),
        decreases tops@.len() - t,
    {
        let list = &tops[t];
        let ghost base = r@;
        let mut k: usize = 0;
        while k < list.len()
            invariant
                list@ == tops@[t as int]@,
                k <= list@.len(),
                forall|bx: Rect| #[trigger] r@.contains(bx) <==> base.contains(bx) || list@.take(k as int).contains(bx),
            decreases list@.len() - k,
        {
            let ghost before = r@;
            r.push(list[k]);
            proof {
                assert forall|bx: Rect| #[trigger] r@.contains(bx) <==> base.contains(bx) || list@.take(k + 1).contains(bx) by {
                    lemma_push_contains(before, list@[k as int], bx);
                    assert(list@.take(k + 1) == list@.take(k as int).push(list@[k as int]));
                    lemma_push_contains(list@.take(k as int), list@[k as int], bx);
                }
            }
            k = k + 1;
        }
        proof {
            assert(list@.take(list@.len() as int) =~= list@);
            assert forall|bx: Rect| #[trigger] r@.contains(bx) <==> exists|q: int| 0 <= q < t + 1 && top_candidate(H, V, q, bx) by {
                if exists|q: int| 0 <= q < t + 1 && top_candidate(H, V, q, bx) {
                    let q = choose|q: int| 0 <= q < t + 1 && top_candidate(H, V, q, bx);
                    if q == t {
                        assert(tops@[q]@.contains(bx));
                    } else {
                        assert(base.contains(bx));
                    }
                }
                if r@.contains(bx) && !base.contains(bx) {
                    assert(tops@[t as int]@.contains(bx));
                    assert(top_candidate(H, V, t as int, bx));
                }
            }
        }
        t = t + 1;
    }
    proof {
        assert forall|bx: Rect| r@.contains(bx) <==> is_candidate(H, V, bx) by {
            if r@.contains(bx) {
                let q = choose|q: int| 0 <= q < t && top_candidate(H, V, q, bx);
                let (l, rr, b) = choose|l: int, rr: int, b: int|
                    #[trigger] valid_quad(H, V, q, l, rr, b) && quad_box(H, V, q, l, rr, b) == bx;
                assert(valid_quad(H, V, q, l, rr, b));
            }
            if is_candidate(H, V, bx) {
                let (q, l, rr, b) = choose|q: int, l: int, rr: int, b: int|
                    #[trigger] valid_quad(H, V, q, l, rr, b) && quad_box(H, V, q, l, rr, b) == bx;
                assert(valid_quad(H, V, q, l, rr, b));
                assert(top_candidate(H, V, q, bx));
            }
        }
    }
    r
}

proof fn lemma_found_push(
    r: Seq<Rect>,
    v: Rect,
    hs: Seq<Placed>,
    vs: Seq<Placed>,
    adj: Seq<usize>,
    ht: int,
    a: int,
)
    requires
        found_upto(r, hs, vs, adj, ht, a),
    ensures
        found_upto(r.push(v), hs, vs, adj, ht, a),
{
    assert forall|a2: int, rr: int, b: int|
        0 <= a2 < a && 0 <= a2 < adj.len() && #[trigger] valid_quad(hs, vs, ht, adj[a2] as int, rr, b)
            implies r.push(v).contains(quad_box(hs, vs, ht, adj[a2] as int, rr, b)) by {
        lemma_push_contains(r, v, quad_box(hs, vs, ht, adj[a2] as int, rr, b));
    }
}

/// The box's sides are pixel positions inside the image: the right and bottom
/// sides too, since they are edge lines.
pub open spec fn fits_inside(b: Rect, width: int, height: int) -> bool {
    b.0 < b.2 < width && b.1 < b.3 < height
}

pub open spec fn min_of(a: int, b: int) -> int {
    if a <= b { a } else { b }
}

pub open spec fn max_of(a: int, b: int) -> int {
    if a >= b { a } else { b }
}

/// Some strip of up to `BORDER_STRIP` pixels, sampled inward from the middle of
/// one side, is one colour: the colour of the side's own pixel.
pub open spec fn flat_border(bm: &Bitmap, b: Rect) -> bool {
    let mx = (b.0 + b.2) / 2;
    let my = (b.1 + b.3) / 2;
    let strip = BORDER_STRIP as int;
    ||| all_of_color(bm.col(mx), b.1 as int, min_of(b.1 + strip, b.3 as int), bm.pixel(mx, b.1 as int))
    ||| all_of_color(bm.col(mx), max_of(b.3 - strip, b.1 as int), b.3 as int, bm.pixel(mx, b.3 as int))
    ||| all_of_color(bm.row(my), b.0 as int, min_of(b.0 + strip, b.2 as int), bm.pixel(b.0 as int, my))
    ||| all_of_color(bm.row(my), max_of(b.2 - strip, b.0 as int), b.2 as int, bm.pixel(b.2 as int, my))
}

/// Whether some side of `b` is flat (see `flat_border`).
pub fn has_flat_border(bm: &Bitmap, b: Rect) -> (r: bool)
    requires
        bm.wf(),
        fits_inside(b, bm.width as int, bm.height as int),
    ensures
        r == flat_border(bm, b),
{
    let mx: u32 = ((b.0 as u64 + b.2 as u64) / 2) as u32;
    let my: u32 = ((b.1 as u64 + b.3 as u64) / 2) as u32;
    let top_end: u32 = if b.3 - b.1 <= BORDER_STRIP { b.3 } else { b.1 + BORDER_STRIP };
    let bottom_start: u32 = if b.3 - b.1 <= BORDER_STRIP { b.1 } else { b.3 - BORDER_STRIP };
    let left_end: u32 = if b.2 - b.0 <= BORDER_STRIP { b.2 } else { b.0 + BORDER_STRIP };
    let right_start: u32 = if b.2 - b.0 <= BORDER_STRIP { b.0 } else { b.2 - BORDER_STRIP };
    is_all_of_color(bm, Direction::Vertical, mx, b.1, top_end, bm.get_pixel(mx, b.1))
        || is_all_of_color(bm, Direction::Vertical, mx, bottom_start, b.3, bm.get_pixel(mx, b.3))
        || is_all_of_color(bm, Direction::Horizontal, my, b.0, left_end, bm.get_pixel(b.0, my))
        || is_all_of_color(bm, Direction::Horizontal, my, right_start, b.2, bm.get_pixel(b.2, my))
}

/// Whether each box has a flat side, boxes examined in parallel.
/// Relies on rayon: `par_iter` over a slice is an indexed parallel iterator,
/// `map` keeps it indexed, and `collect` into a `Vec` writes each item at its
/// index; the closure only calls the verified `has_flat_border`.
#[verifier::external_body]
fn flat_borders_in_parallel(image: &Bitmap, boxes: &Vec<Rect>) -> (r: Vec<bool>)
    requires
        image.wf(),
        forall|i: int| 0 <= i < boxes@.len() ==> fits_inside(#[trigger] boxes@[i], image.width as int, image.height as int),
    ensures
        r@.len() == boxes@.len(),
        forall|i: int| 0 <= i < r@.len() ==> #[trigger] r@[i] == flat_border(image, boxes@[i]),
{
    boxes.par_iter().map(|b| has_flat_border(image, *b)).collect()
}

/// Keeps the candidates none of whose sides is flat: a flat strip means the
/// detected border is background, not a border. The order is kept.
pub fn validate_boxes(image: &Bitmap, boxes: &Vec<Rect>) -> (r: Vec<Rect>)
    requires
        image.wf(),
        forall|i: int| 0 <= i < boxes@.len() ==> fits_inside(#[trigger] boxes@[i], image.width as int, image.height as int),
    ensures
        r@ == boxes@.filter(|b: Rect| !flat_border(image, b)),
{
    let flat = flat_borders_in_parallel(image, boxes);
    let ghost p = |b: Rect| !flat_border(image, b);
    let mut r: Vec<Rect> = Vec::new();
    let mut i: usize = 0;
    while i < boxes.len()
        invariant
            flat@.len() == boxes@.len(),
            forall|k: int| 0 <= k < flat@.len() ==> #[trigger] flat@[k] == flat_border(image, boxes@[k]),
            i <= boxes@.len(),
            p == (|b: Rect| !flat_border(image, b)),
            r@ == boxes@.take(i as int).filter(p),
        decreases boxes@.len() - i,
    {
        proof {
            lemma_filter_take_step(boxes@, i as int, p);
        }
        if !flat[i] {
            r.push(boxes[i]);
        }
        i = i + 1;
    }
    proof {
        assert(boxes@.take(boxes@.len() as int) =~= boxes@);
    }
    r
}

} // verus!
