use vstd::prelude::*;

verus! {

/// An axis-aligned rectangle `(min_x, min_y, max_x, max_y)`, maxima exclusive.
pub type Rect = (u32, u32, u32, u32);

/// `min_x < max_x` and `min_y < max_y`.
pub open spec fn is_proper(b: Rect) -> bool {
    b.0 < b.2 && b.1 < b.3
}

/// Every rectangle of `s` is proper.
pub open spec fn all_proper(s: Seq<Rect>) -> bool {
    forall|i: int| 0 <= i < s.len() ==> is_proper(#[trigger] s[i])
}

/// `outer` contains `inner` (sides may coincide).
pub open spec fn contains(outer: Rect, inner: Rect) -> bool {
    outer.0 <= inner.0 && outer.1 <= inner.1 && inner.2 <= outer.2 && inner.3 <= outer.3
}

/// `inner` lies in `outer` and differs from it.
pub open spec fn strictly_contains(outer: Rect, inner: Rect) -> bool {
    contains(outer, inner) && outer != inner
}

/// The two rectangles share interior area.
pub open spec fn overlaps(a: Rect, b: Rect) -> bool {
    a.0 < b.2 && a.2 > b.0 && a.1 < b.3 && a.3 > b.1
}

/// The rectangles share rows, and overlap across once one is widened by `xp`
/// and the other by `yp` on both sides: the horizontal gap between them is less
/// than `xp + yp`, overlap counting as no gap.
pub open spec fn near(a: Rect, b: Rect, xp: int, yp: int) -> bool {
    a.1 < b.3 && b.1 < a.3 && a.0 < b.2 + xp + yp && b.0 < a.2 + xp + yp
}

/// Some other position of `s` holds a rectangle near `s[i]`.
pub open spec fn has_partner(s: Seq<Rect>, i: int, xp: int, yp: int) -> bool {
    exists|j: int| 0 <= j < s.len() && j != i && near(s[i], #[trigger] s[j], xp, yp)
}

/// The first position from `i` on whose rectangle has a partner; -1 if none.
pub open spec fn first_with_partner(s: Seq<Rect>, xp: int, yp: int, i: int) -> int
    decreases s.len() - i,
{
    if i < 0 || i >= s.len() {
        -1
    } else if has_partner(s, i, xp, yp) {
        i
    } else {
        first_with_partner(s, xp, yp, i + 1)
    }
}

/// The first position from `j` on, other than `i`, whose rectangle is near
/// `s[i]`; -1 if none.
pub open spec fn first_partner(s: Seq<Rect>, xp: int, yp: int, i: int, j: int) -> int
    decreases s.len() - j,
{
    if j < 0 || j >= s.len() {
        -1
    } else if j != i && near(s[i], s[j], xp, yp) {
        j
    } else {
        first_partner(s, xp, yp, i, j + 1)
    }
}

/// One merge: the first rectangle with a partner and its first partner are
/// replaced by their hull, appended last; `None` when no two are near.
pub open spec fn merge_step(s: Seq<Rect>, xp: int, yp: int) -> Option<Seq<Rect>> {
    let i = first_with_partner(s, xp, yp, 0);
    if i < 0 {
        None
    } else {
        let j = first_partner(s, xp, yp, i, 0);
        let lo = if i < j { i } else { j };
        let hi = if i < j { j } else { i };
        Some(s.remove(hi).remove(lo).push(hull(s[lo], s[hi])))
    }
}

/// At most `f` merge steps from `s`.
pub open spec fn merged_fuel(s: Seq<Rect>, xp: int, yp: int, f: nat) -> Seq<Rect>
    decreases f,
{
    if f == 0 {
        s
    } else {
        match merge_step(s, xp, yp) {
            None => s,
            Some(t) => merged_fuel(t, xp, yp, (f - 1) as nat),
        }
    }
}

/// Merge steps from `s` until no two rectangles are near; each step shortens
/// the sequence, so `s.len()` steps suffice.
pub open spec fn merged(s: Seq<Rect>, xp: int, yp: int) -> Seq<Rect> {
    merged_fuel(s, xp, yp, s.len())
}

/// The smallest rectangle holding both.
pub open spec fn hull(a: Rect, b: Rect) -> Rect {
    (
        if a.0 <= b.0 { a.0 } else { b.0 },
        if a.1 <= b.1 { a.1 } else { b.1 },
        if a.2 >= b.2 { a.2 } else { b.2 },
        if a.3 >= b.3 { a.3 } else { b.3 },
    )
}

/// No two rectangles at distinct positions are near each other.
pub open spec fn merge_closed(s: Seq<Rect>, xp: int, yp: int) -> bool {
    forall|i: int, j: int|
        0 <= i < s.len() && 0 <= j < s.len() && i != j ==> !near(#[trigger] s[i], #[trigger] s[j], xp, yp)
}

/// Some rectangle of `r` contains `b`.
pub open spec fn covered(r: Seq<Rect>, b: Rect) -> bool {
    exists|m: int| 0 <= m < r.len() && contains(#[trigger] r[m], b)
}

/// Every rectangle of `s` lies in some rectangle of `r`.
pub open spec fn covers(r: Seq<Rect>, s: Seq<Rect>) -> bool {
    forall|k: int| 0 <= k < s.len() ==> #[trigger] covered(r, s[k])
}

/// Every rectangle of `s` lies in `bb`.
pub open spec fn all_inside(s: Seq<Rect>, bb: Rect) -> bool {
    forall|i: int| 0 <= i < s.len() ==> contains(bb, #[trigger] s[i])
}

/// `b` contains some rectangle of `s`.
pub open spec fn holds_some(b: Rect, s: Seq<Rect>) -> bool {
    exists|k: int| 0 <= k < s.len() && contains(b, #[trigger] s[k])
}

/// Every rectangle of `r` contains some rectangle of `s`.
pub open spec fn each_holds_one(r: Seq<Rect>, s: Seq<Rect>) -> bool {
    forall|m: int| 0 <= m < r.len() ==> #[trigger] holds_some(r[m], s)
}

/// What `merge_boxes` promises of its result `r` on input `s`.
pub open spec fn merge_outcome(s: Seq<Rect>, r: Seq<Rect>, xp: int, yp: int) -> bool {
    &&& merge_closed(r, xp, yp)
    &&& covers(r, s)
    &&& each_holds_one(r, s)
    &&& forall|bb: Rect| #[trigger] all_inside(s, bb) ==> all_inside(r, bb)
    &&& r.len() <= s.len()
    &&& (all_proper(s) ==> all_proper(r))
    &&& (merge_closed(s, xp, yp) ==> r == s)
}

/// Some other entry of `s` (a different rectangle) lies inside `b`.
pub open spec fn has_inner(s: Seq<Rect>, b: Rect) -> bool {
    exists|i: int| 0 <= i < s.len() && s[i] != b && contains(b, #[trigger] s[i])
}

/// `b` lies inside some other entry of `s` (a different rectangle).
pub open spec fn has_outer(s: Seq<Rect>, b: Rect) -> bool {
    exists|i: int| 0 <= i < s.len() && s[i] != b && contains(#[trigger] s[i], b)
}

/// `b` lies inside no other rectangle of `s`.
pub open spec fn no_outer(s: Seq<Rect>) -> spec_fn(Rect) -> bool {
    |b: Rect| !has_outer(s, b)
}

/// `b` contains no other rectangle of `s`.
pub open spec fn no_inner(s: Seq<Rect>) -> spec_fn(Rect) -> bool {
    |b: Rect| !has_inner(s, b)
}

/// The rectangles of `s` that lie inside no other one, in order.
pub open spec fn outermost(s: Seq<Rect>) -> Seq<Rect> {
    s.filter(no_outer(s))
}

/// No rectangle of `s` strictly contains another one of `s`.
pub open spec fn antichain(s: Seq<Rect>) -> bool {
    forall|i: int, j: int|
        0 <= i < s.len() && 0 <= j < s.len() ==> !strictly_contains(#[trigger] s[i], #[trigger] s[j])
}

/// Filtering one more element of a sequence extends the filtered prefix by at
/// most that element.
pub proof fn lemma_filter_take_step<A>(s: Seq<A>, k: int, p: spec_fn(A) -> bool)
    requires
        0 <= k < s.len(),
    ensures
        s.take(k + 1).filter(p) == (if p(s[k]) {
            s.take(k).filter(p).push(s[k])
        } else {
            s.take(k).filter(p)
        }),
{
    reveal(Seq::filter);
    assert(s.take(k + 1).drop_last() =~= s.take(k));
}

/// Interior overlap of two rectangles.
pub fn boxes_overlap(box1: &Rect, box2: &Rect) -> (r: bool)
    ensures
        r == overlaps(*box1, *box2),
{
    box1.0 < box2.2 && box1.2 > box2.0 && box1.1 < box2.3 && box1.3 > box2.1
}

fn is_near(a: &Rect, b: &Rect, x_padding: u32, y_padding: u32) -> (r: bool)
    ensures
        r == near(*a, *b, x_padding as int, y_padding as int),
{
    let pad: u64 = x_padding as u64 + y_padding as u64;
    a.1 < b.3 && b.1 < a.3 && (a.0 as u64) < b.2 as u64 + pad && (b.0 as u64) < a.2 as u64 + pad
}

/// Equality of rectangles, side by side.
pub fn same_rect(a: &Rect, b: &Rect) -> (r: bool)
    ensures
        r == (*a == *b),
{
    a.0 == b.0 && a.1 == b.1 && a.2 == b.2 && a.3 == b.3
}

fn hull_of(a: &Rect, b: &Rect) -> (r: Rect)
    ensures
        r == hull(*a, *b),
{
    (
        if a.0 <= b.0 { a.0 } else { b.0 },
        if a.1 <= b.1 { a.1 } else { b.1 },
        if a.2 >= b.2 { a.2 } else { b.2 },
        if a.3 >= b.3 { a.3 } else { b.3 },
    )
}

/// The first rectangle with a partner and its first partner (see
/// `merge_step`), if any.
fn find_near_pair(boxes: &Vec<Rect>, x_padding: u32, y_padding: u32) -> (r: Option<(usize, usize)>)
    ensures
        r is None <==> first_with_partner(boxes@, x_padding as int, y_padding as int, 0) < 0,
        r is None ==> merge_closed(boxes@, x_padding as int, y_padding as int),
        r matches Some((i, j)) ==> {
            &&& i == first_with_partner(boxes@, x_padding as int, y_padding as int, 0)
            &&& j == first_partner(boxes@, x_padding as int, y_padding as int, i as int, 0)
            &&& i < boxes@.len() && j < boxes@.len() && i != j
            &&& near(boxes@[i as int], boxes@[j as int], x_padding as int, y_padding as int)
        },
{
    let ghost s = boxes@;
    let ghost xp = x_padding as int;
    let ghost yp = y_padding as int;
    let n = boxes.len();
    let mut i: usize = 0;
    while i < n
        invariant
            s == boxes@,
            xp == x_padding,
            yp == y_padding,
            n == s.len(),
            i <= n,
            first_with_partner(s, xp, yp, 0) == first_with_partner(s, xp, yp, i as int),
            forall|a: int| 0 <= a < i ==> !#[trigger] has_partner(s, a, xp, yp),
        decreases n - i,
    {
        let mut j: usize = 0;
        while j < n
            invariant
                s == boxes@,
                xp == x_padding,
                yp == y_padding,
                n == s.len(),
                i < n,
                j <= n,
                first_with_partner(s, xp, yp, 0) == first_with_partner(s, xp, yp, i as int),
                first_partner(s, xp, yp, i as int, 0) == first_partner(s, xp, yp, i as int, j as int),
                forall|b: int| 0 <= b < j && b != i ==> !near(s[i as int], #[trigger] s[b], xp, yp),
            decreases n - j,
        {
            if j != i && is_near(&boxes[i], &boxes[j], x_padding, y_padding) {
                proof {
                    assert(has_partner(s, i as int, xp, yp));
                }
                return Some((i, j));
            }
            j = j + 1;
        }
        proof {
            assert(!has_partner(s, i as int, xp, yp));
        }
        i = i + 1;
    }
    proof {
        assert forall|a: int, b: int|
            0 <= a < s.len() && 0 <= b < s.len() && a != b implies !near(#[trigger] s[a], #[trigger] s[b], xp, yp) by {
            assert(!has_partner(s, a, xp, yp));
        }
    }
    None
}

/// Replaces the rectangles at `i` and `j` by their hull, appended last.
fn merge_pair(boxes: Vec<Rect>, i: usize, j: usize) -> (r: Vec<Rect>)
    requires
        i < j < boxes@.len(),
    ensures
        r@ == boxes@.remove(j as int).remove(i as int).push(hull(boxes@[i as int], boxes@[j as int])),
        r@.len() == boxes@.len() - 1,
        covers(r@, boxes@),
        each_holds_one(r@, boxes@),
        forall|bb: Rect| #[trigger] all_inside(boxes@, bb) ==> all_inside(r@, bb),
        all_proper(boxes@) ==> all_proper(r@),
{
    let h = hull_of(&boxes[i], &boxes[j]);
    let mut r = boxes;
    r.remove(j);
    let ghost g1 = r@;
    r.remove(i);
    let ghost g2 = r@;
    r.push(h);
    proof {
        let n = boxes@.len();
        assert forall|m: int| 0 <= m < n - 1 implies #[trigger] g1[m] == boxes@[
            if m < j { m } else { m + 1 }
        ] by {}
        assert forall|m: int| 0 <= m < n - 2 implies #[trigger] g2[m] == g1[
            if m < i { m } else { m + 1 }
        ] by {}
        assert forall|m: int| 0 <= m < n - 2 implies #[trigger] r@[m] == g2[m] by {}
        assert(r@.len() == n - 1);
        assert(r@[n - 2] == h);
        assert forall|q: int| 0 <= q < n implies #[trigger] covered(r@, boxes@[q]) by {
            if q == i || q == j {
                assert(contains(r@[n - 2], boxes@[q]));
            } else if q < i {
                assert(g1[q] == boxes@[q]);
                assert(g2[q] == g1[q]);
                assert(r@[q] == boxes@[q]);
                assert(contains(r@[q], boxes@[q]));
            } else if q < j {
                assert(g1[q] == boxes@[q]);
                assert(g2[q - 1] == g1[q]);
                assert(r@[q - 1] == boxes@[q]);
                assert(contains(r@[q - 1], boxes@[q]));
            } else {
                assert(g1[q - 1] == boxes@[q]);
                assert(g2[q - 2] == g1[q - 1]);
                assert(r@[q - 2] == boxes@[q]);
                assert(contains(r@[q - 2], boxes@[q]));
            }
        }
        assert forall|m: int| 0 <= m < n - 1 implies (r@[m] == h || r@[m] == boxes@[
            if m < i { m } else if m + 1 < j { m + 1 } else { m + 2 }
        ]) by {
            if m < n - 2 {
                assert(r@[m] == g2[m]);
                if m < i {
                    assert(g2[m] == g1[m]);
                } else {
                    assert(g2[m] == g1[m + 1]);
                }
            }
        }
        assert forall|m: int| 0 <= m < r@.len() implies #[trigger] holds_some(r@[m], boxes@) by {
            if m < n - 2 {
                let t = if m < i { m } else if m + 1 < j { m + 1 } else { m + 2 };
                assert(contains(r@[m], boxes@[t]));
            } else {
                assert(contains(r@[m], boxes@[i as int]));
            }
        }
        assert forall|bb: Rect| #[trigger] all_inside(boxes@, bb) implies all_inside(r@, bb) by {
            assert forall|m: int| 0 <= m < r@.len() implies contains(bb, #[trigger] r@[m]) by {
                assert(contains(bb, boxes@[i as int]));
                assert(contains(bb, boxes@[j as int]));
                if m < n - 2 {
                    let t = if m < i { m } else if m + 1 < j { m + 1 } else { m + 2 };
                    assert(contains(bb, boxes@[t]));
                }
            }
        }
        if all_proper(boxes@) {
            assert forall|m: int| 0 <= m < r@.len() implies is_proper(#[trigger] r@[m]) by {
                assert(is_proper(boxes@[i as int]));
                assert(is_proper(boxes@[j as int]));
                if m < n - 2 {
                    let t = if m < i { m } else if m + 1 < j { m + 1 } else { m + 2 };
                    assert(is_proper(boxes@[t]));
                }
            }
        }
    }
    r
}

/// Merges near rectangles pairwise into their hull until no two are near: two
/// rectangles merge when they share rows and the horizontal gap between them is
/// less than `x_padding + y_padding` (see `near`). The result is `merged`; an
/// input with no near pair comes back unchanged.
pub fn merge_boxes(boxes: Vec<Rect>, x_padding: u32, y_padding: u32) -> (r: Vec<Rect>)
    ensures
        r@ == merged(boxes@, x_padding as int, y_padding as int),
        merge_outcome(boxes@, r@, x_padding as int, y_padding as int),
{
    let ghost xp = x_padding as int;
    let ghost yp = y_padding as int;
    let mut cur = boxes;
    proof {
        assert forall|k: int| 0 <= k < cur@.len() implies #[trigger] covered(cur@, cur@[k]) by {
            assert(contains(cur@[k], cur@[k]));
        }
        assert forall|k: int| 0 <= k < cur@.len() implies #[trigger] holds_some(cur@[k], cur@) by {
            assert(contains(cur@[k], cur@[k]));
        }
    }
    loop
        invariant
            covers(cur@, boxes@),
            each_holds_one(cur@, boxes@),
            forall|bb: Rect| #[trigger] all_inside(boxes@, bb) ==> all_inside(cur@, bb),
            cur@.len() <= boxes@.len(),
            all_proper(boxes@) ==> all_proper(cur@),
            merge_closed(boxes@, xp, yp) ==> cur@ == boxes@,
            merged(boxes@, xp, yp) == merged_fuel(cur@, xp, yp, cur@.len()),
            xp == x_padding,
            yp == y_padding,
        decreases cur@.len(),
    {
        match find_near_pair(&cur, x_padding, y_padding) {
            None => {
                proof {
                    assert(merge_step(cur@, xp, yp) is None);
                }
                return cur;
            },
            Some((i, j)) => {
                let ghost prev = cur@;
                let lo = if i < j { i } else { j };
                let hi = if i < j { j } else { i };
                let next = merge_pair(cur, lo, hi);
                proof {
                    assert(merge_step(prev, xp, yp) == Some(next@));
                    assert(merged_fuel(prev, xp, yp, prev.len()) == merged_fuel(next@, xp, yp, next@.len()));
                    lemma_covers_trans(next@, prev, boxes@);
                    assert forall|m: int| 0 <= m < next@.len() implies #[trigger] holds_some(next@[m], boxes@) by {
                        assert(holds_some(next@[m], prev));
                        let k = choose|k: int| 0 <= k < prev.len() && contains(next@[m], #[trigger] prev[k]);
                        assert(holds_some(prev[k], boxes@));
                        let k2 = choose|k2: int| 0 <= k2 < boxes@.len() && contains(prev[k], #[trigger] boxes@[k2]);
                        assert(contains(next@[m], boxes@[k2]));
                    }
                    assert forall|bb: Rect| #[trigger] all_inside(boxes@, bb) implies all_inside(next@, bb) by {
                        assert(all_inside(prev, bb));
                    }
                }
                cur = next;
            },
        }
    }
}

proof fn lemma_covers_trans(a: Seq<Rect>, b: Seq<Rect>, c: Seq<Rect>)
    requires
        covers(a, b),
        covers(b, c),
    ensures
        covers(a, c),
{
    assert forall|k: int| 0 <= k < c.len() implies #[trigger] covered(a, c[k]) by {
        assert(covered(b, c[k]));
        let m1 = choose|m: int| 0 <= m < b.len() && contains(#[trigger] b[m], c[k]);
        assert(covered(a, b[m1]));
        let m2 = choose|m: int| 0 <= m < a.len() && contains(#[trigger] a[m], b[m1]);
        assert(contains(a[m2], c[k]));
    }
}

/// Merging a set that is already merged with the same padding gives it back.
pub proof fn lemma_merge_idempotent(s: Seq<Rect>, first: Seq<Rect>, second: Seq<Rect>, xp: int, yp: int)
    requires
        merge_outcome(s, first, xp, yp),
        merge_outcome(first, second, xp, yp),
    ensures
        second == first,
{
}

fn has_inner_box(boxes: &Vec<Rect>, b: Rect) -> (r: bool)
    ensures
        r == has_inner(boxes@, b),
{
    let n = boxes.len();
    let mut i: usize = 0;
    while i < n
        invariant
            n == boxes@.len(),
            i <= n,
            forall|k: int| 0 <= k < i ==> !(boxes@[k] != b && contains(b, #[trigger] boxes@[k])),
        decreases n - i,
    {
        let c = boxes[i];
        if !same_rect(&c, &b) && b.0 <= c.0 && b.1 <= c.1 && c.2 <= b.2 && c.3 <= b.3 {
            return true;
        }
        i = i + 1;
    }
    false
}

fn has_outer_box(boxes: &Vec<Rect>, b: Rect) -> (r: bool)
    ensures
        r == has_outer(boxes@, b),
{
    let n = boxes.len();
    let mut i: usize = 0;
    while i < n
        invariant
            n == boxes@.len(),
            i <= n,
            forall|k: int| 0 <= k < i ==> !(boxes@[k] != b && contains(#[trigger] boxes@[k], b)),
        decreases n - i,
    {
        let c = boxes[i];
        if !same_rect(&c, &b) && c.0 <= b.0 && c.1 <= b.1 && b.2 <= c.2 && b.3 <= c.3 {
            return true;
        }
        i = i + 1;
    }
    false
}

/// Drops every rectangle that contains a different rectangle of the input,
/// keeping the innermost ones in their order.
pub fn filter_parents(boxes: Vec<Rect>) -> (r: Vec<Rect>)
    ensures
        r@ == boxes@.filter(no_inner(boxes@)),
{
    let ghost p = no_inner(boxes@);
    let n = boxes.len();
    let mut r: Vec<Rect> = Vec::new();
    let mut i: usize = 0;
    while i < n
        invariant
            n == boxes@.len(),
            i <= n,
            p == (no_inner(boxes@)),
            r@ == boxes@.take(i as int).filter(p),
        decreases n - i,
    {
        proof {
            lemma_filter_take_step(boxes@, i as int, p);
        }
        if !has_inner_box(&boxes, boxes[i]) {
            r.push(boxes[i]);
        }
        i = i + 1;
    }
    proof {
        assert(boxes@.take(n as int) =~= boxes@);
    }
    r
}

/// Drops every rectangle that lies inside a different rectangle of the input,
/// keeping the outermost ones in their order.
pub fn filter_children(boxes: Vec<Rect>) -> (r: Vec<Rect>)
    ensures
        r@ == outermost(boxes@),
{
    let ghost p = no_outer(boxes@);
    let n = boxes.len();
    let mut r: Vec<Rect> = Vec::new();
    let mut i: usize = 0;
    while i < n
        invariant
            n == boxes@.len(),
            i <= n,
            p == (no_outer(boxes@)),
            r@ == boxes@.take(i as int).filter(p),
        decreases n - i,
    {
        proof {
            lemma_filter_take_step(boxes@, i as int, p);
        }
        if !has_outer_box(&boxes, boxes[i]) {
            r.push(boxes[i]);
        }
        i = i + 1;
    }
    proof {
        assert(boxes@.take(n as int) =~= boxes@);
    }
    r
}

/// After dropping the rectangles that lie inside others, no survivor strictly
/// contains another survivor.
pub proof fn lemma_filter_children_antichain(s: Seq<Rect>)
    ensures
        antichain(outermost(s)),
{
    let p = no_outer(s);
    let f = s.filter(p);
    broadcast use Seq::lemma_filter_pred, Seq::lemma_filter_contains_rev;
    assert forall|i: int, j: int| 0 <= i < f.len() && 0 <= j < f.len() implies !strictly_contains(
        #[trigger] f[i],
        #[trigger] f[j],
    ) by {
        assert(p(f[j]));
        if strictly_contains(f[i], f[j]) {
            assert(f.contains(f[i]));
            assert(s.contains(f[i]));
            let k = choose|k: int| 0 <= k < s.len() && s[k] == f[i];
            assert(s[k] != f[j] && contains(s[k], f[j]));
            assert(has_outer(s, f[j]));
        }
    }
}

/// After dropping the rectangles that contain others, no survivor strictly
/// contains another survivor.
pub proof fn lemma_filter_parents_antichain(s: Seq<Rect>)
    ensures
        antichain(s.filter(no_inner(s))),
{
    let p = no_inner(s);
    let f = s.filter(p);
    broadcast use Seq::lemma_filter_pred, Seq::lemma_filter_contains_rev;
    assert forall|i: int, j: int| 0 <= i < f.len() && 0 <= j < f.len() implies !strictly_contains(
        #[trigger] f[i],
        #[trigger] f[j],
    ) by {
        assert(p(f[i]));
        if strictly_contains(f[i], f[j]) {
            assert(f.contains(f[j]));
            assert(s.contains(f[j]));
            let k = choose|k: int| 0 <= k < s.len() && s[k] == f[j];
            assert(s[k] != f[i] && contains(f[i], s[k]));
            assert(has_inner(s, f[i]));
        }
    }
}

/// Scales rectangles of a half-resolution map back to full resolution.
pub fn unmap_downsampled_boxes(boxes: &Vec<(usize, usize, usize, usize)>) -> (r: Vec<
    (usize, usize, usize, usize),
>)
    requires
        forall|i: int|
            0 <= i < boxes@.len() ==> 2 * (#[trigger] boxes@[i]).0 <= usize::MAX && 2 * boxes@[i].1
                <= usize::MAX && 2 * boxes@[i].2 <= usize::MAX && 2 * boxes@[i].3 <= usize::MAX,
    ensures
        r@.len() == boxes@.len(),
        forall|i: int|
            0 <= i < r@.len() ==> #[trigger] r@[i] == (
                (2 * boxes@[i].0) as usize,
                (2 * boxes@[i].1) as usize,
                (2 * boxes@[i].2) as usize,
                (2 * boxes@[i].3) as usize,
            ),
{
    let mut r: Vec<(usize, usize, usize, usize)> = Vec::new();
    let mut i: usize = 0;
    while i < boxes.len()
        invariant
            i <= boxes@.len(),
            r@.len() == i,
            forall|k: int|
                0 <= k < boxes@.len() ==> 2 * (#[trigger] boxes@[k]).0 <= usize::MAX && 2
                    * boxes@[k].1 <= usize::MAX && 2 * boxes@[k].2 <= usize::MAX && 2 * boxes@[k].3
                    <= usize::MAX,
            forall|k: int|
                0 <= k < i ==> #[trigger] r@[k] == (
                    (2 * boxes@[k].0) as usize,
                    (2 * boxes@[k].1) as usize,
                    (2 * boxes@[k].2) as usize,
                    (2 * boxes@[k].3) as usize,
                ),
        decreases boxes@.len() - i,
    {
        let b = boxes[i];
        r.push((b.0 * 2, b.1 * 2, b.2 * 2, b.3 * 2));
        i = i + 1;
    }
    r
}

/// Every rectangle of `s` is proper and lies in a `w` x `h` image.
pub open spec fn bounded(s: Seq<Rect>, w: u32, h: u32) -> bool {
    all_proper(s) && all_inside(s, (0u32, 0u32, w, h))
}

/// Keeping some rectangles of a bounded sequence keeps it bounded.
pub proof fn lemma_filter_bounded(s: Seq<Rect>, p: spec_fn(Rect) -> bool, w: u32, h: u32)
    requires
        bounded(s, w, h),
    ensures
        bounded(s.filter(p), w, h),
{
    let f = s.filter(p);
    assert forall|i: int| 0 <= i < f.len() implies is_proper(#[trigger] f[i]) && contains((0u32, 0u32, w, h), f[i]) by {
        assert(f.contains(f[i]));
        s.lemma_filter_contains_rev(p, f[i]);
        let j = choose|j: int| 0 <= j < s.len() && s[j] == f[i];
        assert(is_proper(s[j]));
        assert(contains((0u32, 0u32, w, h), s[j]));
    }
}

/// A sequence all of whose rectangles are proper and lie in some rectangle of a
/// bounded sequence is bounded.
pub proof fn lemma_within_bounded(r: Seq<Rect>, s: Seq<Rect>, w: u32, h: u32)
    requires
        bounded(s, w, h),
        forall|k: int| 0 <= k < r.len() ==> is_proper(#[trigger] r[k]) && exists|i: int| 0 <= i < s.len() && contains(s[i], r[k]),
    ensures
        bounded(r, w, h),
{
    assert forall|k: int| 0 <= k < r.len() implies contains((0u32, 0u32, w, h), #[trigger] r[k]) by {
        let i = choose|i: int| 0 <= i < s.len() && contains(s[i], r[k]);
        assert(contains((0u32, 0u32, w, h), s[i]));
    }
}

/// Two bounded sequences joined are bounded.
pub proof fn lemma_concat_bounded(a: Seq<Rect>, b: Seq<Rect>, w: u32, h: u32)
    requires
        bounded(a, w, h),
        bounded(b, w, h),
    ensures
        bounded(a + b, w, h),
{
    assert forall|k: int| 0 <= k < (a + b).len() implies is_proper(#[trigger] (a + b)[k]) && contains((0u32, 0u32, w, h), (a + b)[k]) by {
        if k < a.len() {
            assert((a + b)[k] == a[k]);
        } else {
            assert((a + b)[k] == b[k - a.len()]);
        }
    }
}

} // verus!
