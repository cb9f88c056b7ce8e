//! Midpoint rasterisation of a circle, with its outline put in drawing order.
use vstd::prelude::*;
use crate::point::{Point, Circle};
use crate::line::abs;

verus! {

/// The point at offset (`dx`, `dy`) from `c`.
pub open spec fn offset(c: Point, dx: int, dy: int) -> Point {
    Point { x: (c.x + dx) as i32, y: (c.y + dy) as i32 }
}

/// The eight mirror images, one per octant, of the offset (`x`, `y`) around `c`, in
/// the order the midpoint algorithm emits them.
pub open spec fn octant_points(c: Point, x: int, y: int) -> Seq<Point> {
    seq![
        offset(c, x, y), offset(c, x, -y),
        offset(c, y, x), offset(c, -y, x),
        offset(c, -x, y), offset(c, -x, -y),
        offset(c, -y, -x), offset(c, y, -x),
    ]
}

/// The points that the midpoint algorithm emits from the state (`x`, `y`, `err`) on:
/// while `x >= y` it emits the eight images of (`x`, `y`), then steps `y` up when the
/// error is not positive and `x` down otherwise, updating the error to match.
pub open spec fn circle_walk(c: Point, x: int, y: int, err: int) -> Seq<Point>
    decreases x - y + 1,
{
    if x < y {
        seq![]
    } else if err <= 0 {
        octant_points(c, x, y) + circle_walk(c, x, y + 1, err + 2 * (y + 1) + 1)
    } else {
        octant_points(c, x, y) + circle_walk(c, x - 1, y, err - 2 * (x - 1) - 1)
    }
}

/// The radius as the algorithm reads it: the `u32` taken as an `i32`.
pub open spec fn walk_radius(radius: u32) -> int {
    (radius as i32) as int
}

/// The points of the circle of the given radius around `c`, as the midpoint algorithm
/// emits them, duplicates included.
pub open spec fn circle_outline(c: Point, radius: u32) -> Seq<Point> {
    circle_walk(c, walk_radius(radius), 0, 0)
}

/// Whether the circle around `c` fits in the `i32` plane.
pub open spec fn circle_fits(c: Point, radius: u32) -> bool {
    let r = walk_radius(radius);
    r >= 0 ==> i32::MIN <= c.x - r && c.x + r <= i32::MAX && i32::MIN <= c.y - r && c.y + r <= i32::MAX
}

fn outline_points(mid_point: &Point, radius: u32) -> (pts: Vec<Point>)
    requires
        circle_fits(*mid_point, radius),
    ensures
        pts@ == circle_outline(*mid_point, radius),
{
    let c = *mid_point;
    let mut ret_vec: Vec<Point> = Vec::new();
    let r: i32 = #[verifier::truncate] (radius as i32);
    let mut x: i64 = r as i64;
    let mut y: i64 = 0;
    let mut err: i128 = 0;
    if r < 0 {
        return ret_vec;
    }
    while x >= y
        invariant
            0 <= r,
            r == walk_radius(radius),
            circle_fits(c, radius),
            -1 <= x <= r,
            0 <= y <= r + 1,
            err == x * x + y * y + 2 * y - r * r,
            ret_vec@ + circle_walk(c, x as int, y as int, err as int) == circle_outline(c, radius),
        decreases x - y + 1,
    {
        proof {
            assert(-0x10_0000_0000_0000_0000 < err < 0x10_0000_0000_0000_0000) by (nonlinear_arith)
                requires
                    err == x * x + y * y + 2 * y - r * r,
                    -1 <= x <= r,
                    0 <= y <= r + 1,
                    r <= i32::MAX,
            ;
        }
        let ghost before = ret_vec@;
        ret_vec.push(Point { x: (c.x as i64 + x) as i32, y: (c.y as i64 + y) as i32 });
        ret_vec.push(Point { x: (c.x as i64 + x) as i32, y: (c.y as i64 - y) as i32 });
        ret_vec.push(Point { x: (c.x as i64 + y) as i32, y: (c.y as i64 + x) as i32 });
        ret_vec.push(Point { x: (c.x as i64 - y) as i32, y: (c.y as i64 + x) as i32 });
        ret_vec.push(Point { x: (c.x as i64 - x) as i32, y: (c.y as i64 + y) as i32 });
        ret_vec.push(Point { x: (c.x as i64 - x) as i32, y: (c.y as i64 - y) as i32 });
        ret_vec.push(Point { x: (c.x as i64 - y) as i32, y: (c.y as i64 - x) as i32 });
        ret_vec.push(Point { x: (c.x as i64 + y) as i32, y: (c.y as i64 - x) as i32 });
        proof {
            assert(ret_vec@ == before + octant_points(c, x as int, y as int));
        }
        if err <= 0 {
            proof {
                assert(y <= r) by (nonlinear_arith)
                    requires
                        err == x * x + y * y + 2 * y - r * r,
                        err <= 0,
                        0 <= y,
                        0 <= r,
                ;
            }
            y += 1;
            err += 2 * (y as i128) + 1;
            proof {
                assert(err == x * x + y * y + 2 * y - r * r) by (nonlinear_arith)
                    requires
                        err == x * x + (y - 1) * (y - 1) + 2 * (y - 1) - r * r + 2 * y + 1,
                ;
            }
        } else {
            x -= 1;
            err -= 2 * (x as i128) + 1;
            proof {
                assert(err == x * x + y * y + 2 * y - r * r) by (nonlinear_arith)
                    requires
                        err == (x + 1) * (x + 1) + y * y + 2 * y - r * r - 2 * x - 1,
                ;
            }
        }
    }
    ret_vec
}

/// The drawing order of the outline: whether `a` comes strictly before `b`. Points in
/// the rows at or below the x axis (`y >= 0`) come before those above it; among
/// the former `x` falls, among the latter `x` rises, and points of one column are
/// ordered by `y` in the direction that continues the turn.
pub open spec fn edge_before(a: Point, b: Point) -> bool {
    if a.x == b.x && a.y == b.y {
        false
    } else if a.y >= 0 {
        if b.y < 0 {
            true
        } else if a.x != b.x {
            b.x < a.x
        } else if a.x > 0 {
            a.y < b.y
        } else {
            b.y < a.y
        }
    } else {
        if b.y > 0 {
            false
        } else if a.x != b.x {
            a.x < b.x
        } else if a.x < 0 {
            b.y < a.y
        } else {
            a.y < b.y
        }
    }
}

/// Whether the drawing order is a strict total order on the points of `s`. It fails
/// only where a point above the axis (`y < 0`) and a point on it (`y == 0`) are each
/// put before the other.
pub open spec fn edge_order_total(s: Seq<Point>) -> bool {
    forall|i: int, j: int|
        0 <= i < s.len() && 0 <= j < s.len() && s[i].y < 0 && s[j].y == 0
            ==> !edge_before(#[trigger] s[i], #[trigger] s[j])
}

/// A number for each point that orders points as [`edge_before`] does wherever that
/// order is total.
pub open spec fn edge_rank(p: Point) -> int {
    let half = 0x1_0000_0000int;
    let base = 0x2_0000_0000int;
    if p.y >= 0 {
        (half - p.x) * base + (if p.x > 0 { p.y as int } else { -p.y }) + half
    } else {
        base * base + (p.x + half) * base + (if p.x < 0 { -p.y } else { p.y as int }) + half
    }
}

/// Distinct points have distinct ranks.
proof fn lemma_edge_rank_injective(a: Point, b: Point)
    requires
        edge_rank(a) == edge_rank(b),
    ensures
        a == b,
{
    let half = 0x1_0000_0000int;
    let base = 0x2_0000_0000int;
    let ka = if a.y >= 0 { half - a.x } else { base + a.x + half };
    let kb = if b.y >= 0 { half - b.x } else { base + b.x + half };
    let la = if a.y >= 0 { if a.x > 0 { a.y as int } else { -a.y } } else { if a.x < 0 { -a.y } else { a.y as int } } + half;
    let lb = if b.y >= 0 { if b.x > 0 { b.y as int } else { -b.y } } else { if b.x < 0 { -b.y } else { b.y as int } } + half;
    assert(edge_rank(a) == ka * base + la);
    assert(edge_rank(b) == kb * base + lb);
    vstd::arithmetic::div_mod::lemma_fundamental_div_mod_converse(edge_rank(a), base, ka, la);
    vstd::arithmetic::div_mod::lemma_fundamental_div_mod_converse(edge_rank(b), base, kb, lb);
}

/// Where the drawing order is total on a set of points, it is the order of their ranks.
proof fn lemma_edge_before_is_rank_order(s: Seq<Point>, a: Point, b: Point)
    requires
        edge_order_total(s),
        s.contains(a),
        s.contains(b),
    ensures
        edge_before(a, b) <==> edge_rank(a) < edge_rank(b),
{
    let half = 0x1_0000_0000int;
    let base = 0x2_0000_0000int;
    let ka = if a.y >= 0 { half - a.x } else { base + a.x + half };
    let kb = if b.y >= 0 { half - b.x } else { base + b.x + half };
    let la = if a.y >= 0 { if a.x > 0 { a.y as int } else { -a.y } } else { if a.x < 0 { -a.y } else { a.y as int } } + half;
    let lb = if b.y >= 0 { if b.x > 0 { b.y as int } else { -b.y } } else { if b.x < 0 { -b.y } else { b.y as int } } + half;
    assert(edge_rank(a) == ka * base + la);
    assert(edge_rank(b) == kb * base + lb);
    assert(0 <= la < base && 0 <= lb < base);
    assert(ka < kb ==> ka * base + la < kb * base + lb) by (nonlinear_arith)
        requires 0 <= la < base, 0 <= lb < base, base > 0;
    assert(ka > kb ==> ka * base + la > kb * base + lb) by (nonlinear_arith)
        requires 0 <= la < base, 0 <= lb < base, base > 0;
    if a.y < 0 && b.y == 0 {
        let i = choose|i: int| 0 <= i < s.len() && s[i] == a;
        let j = choose|j: int| 0 <= j < s.len() && s[j] == b;
        assert(!edge_before(s[i], s[j]));
    }
}

/// The drawing-order comparison of two outline points.
fn is_edge_before(a: &Point, b: &Point) -> (r: bool)
    ensures
        r == edge_before(*a, *b),
{
    if a.x == b.x && a.y == b.y {
        false
    } else if a.y >= 0 {
        if b.y < 0 {
            true
        } else if a.x != b.x {
            b.x < a.x
        } else if a.x > 0 {
            a.y < b.y
        } else {
            b.y < a.y
        }
    } else {
        if b.y > 0 {
            false
        } else if a.x != b.x {
            a.x < b.x
        } else if a.x < 0 {
            b.y < a.y
        } else {
            a.y < b.y
        }
    }
}

/// Whether the ranks of `s` never fall.
pub open spec fn rank_sorted(s: Seq<Point>) -> bool {
    forall|i: int, j: int| 0 <= i < j < s.len() ==> edge_rank(#[trigger] s[i]) <= edge_rank(#[trigger] s[j])
}

/// Whether `j` is where stable insertion places `e` among the points `t`: `e` does not
/// come before the point just left of `j`, and comes before every point from `j` on.
pub open spec fn insertion_slot(t: Seq<Point>, e: Point, j: int) -> bool {
    &&& 0 <= j <= t.len()
    &&& (j == 0 || !edge_before(e, t[j - 1]))
    &&& forall|k: int| j <= k < t.len() ==> edge_before(e, #[trigger] t[k])
}

/// `t` with `e` placed at its insertion slot.
pub open spec fn insert_in_order(t: Seq<Point>, e: Point) -> Seq<Point> {
    t.insert(choose|j: int| insertion_slot(t, e, j), e)
}

/// The points of `s` in the order that stable insertion gives them: each point in turn
/// placed at its insertion slot among the points placed before it.
pub open spec fn insertion_order(s: Seq<Point>) -> Seq<Point>
    decreases s.len(),
{
    if s.len() == 0 {
        s
    } else {
        insert_in_order(insertion_order(s.drop_last()), s.last())
    }
}

/// A point has at most one insertion slot among any points, whether or not the drawing
/// order is total on them.
pub proof fn lemma_insertion_slot_unique(t: Seq<Point>, e: Point, j1: int, j2: int)
    requires
        insertion_slot(t, e, j1),
        insertion_slot(t, e, j2),
    ensures
        j1 == j2,
{
    if j1 < j2 {
        assert(edge_before(e, t[j2 - 1]));
    } else if j2 < j1 {
        assert(edge_before(e, t[j1 - 1]));
    }
}

/// A point has an insertion slot among any points: the slot found by moving left from
/// the end past every point it comes before.
pub proof fn lemma_insertion_slot_exists(t: Seq<Point>, e: Point)
    ensures
        exists|j: int| insertion_slot(t, e, j),
    decreases t.len(),
{
    if t.len() == 0 || !edge_before(e, t.last()) {
        assert(insertion_slot(t, e, t.len() as int));
    } else {
        lemma_insertion_slot_exists(t.drop_last(), e);
        let d = t.drop_last();
        let j = choose|j: int| insertion_slot(d, e, j);
        assert forall|k: int| j <= k < t.len() implies edge_before(e, #[trigger] t[k]) by {
            if k < t.len() - 1 {
                assert(t[k] == d[k]);
            }
        }
        if j > 0 {
            assert(t[j - 1] == d[j - 1]);
        }
        assert(insertion_slot(t, e, j));
    }
}

/// Sorts the points into drawing order, keeping the order of equal points (insertion
/// sort).
fn sort_edge(pts: &Vec<Point>) -> (sorted: Vec<Point>)
    ensures
        sorted@.to_multiset() == pts@.to_multiset(),
        sorted@.len() == pts@.len(),
        edge_order_total(pts@) ==> rank_sorted(sorted@),
        sorted@ == insertion_order(pts@),
{
    let mut sorted: Vec<Point> = Vec::new();
    let ghost total = edge_order_total(pts@);
    let n = pts.len();
    let mut i: usize = 0;
    assert(pts@.take(0) =~= sorted@);
    while i < n
        invariant
            n == pts@.len(),
            0 <= i <= n,
            total == edge_order_total(pts@),
            sorted@.to_multiset() == pts@.take(i as int).to_multiset(),
            sorted@.len() == i,
            forall|k: int| 0 <= k < sorted@.len() ==> pts@.contains(#[trigger] sorted@[k]),
            total ==> rank_sorted(sorted@),
            sorted@ == insertion_order(pts@.take(i as int)),
        decreases n - i,
    {
        let e = pts[i];
        assert(pts@[i as int] == e);
        let mut j: usize = sorted.len();
        while j > 0 && is_edge_before(&e, &sorted[j - 1])
            invariant
                0 <= j <= sorted@.len(),
                pts@.contains(e),
                forall|k: int| 0 <= k < sorted@.len() ==> pts@.contains(#[trigger] sorted@[k]),
                total == edge_order_total(pts@),
                total ==> forall|k: int| j <= k < sorted@.len() ==> edge_rank(e) < edge_rank(#[trigger] sorted@[k]),
                forall|k: int| j <= k < sorted@.len() ==> edge_before(e, #[trigger] sorted@[k]),
            decreases j,
        {
            proof {
                if total {
                    lemma_edge_before_is_rank_order(pts@, e, sorted@[j - 1]);
                }
            }
            j -= 1;
        }
        proof {
            if total && j > 0 {
                lemma_edge_before_is_rank_order(pts@, e, sorted@[j - 1]);
            }
        }
        let ghost old_sorted = sorted@;
        proof {
            assert(insertion_slot(old_sorted, e, j as int));
            let c = choose|c: int| insertion_slot(old_sorted, e, c);
            lemma_insertion_slot_unique(old_sorted, e, c, j as int);
            assert(pts@.take(i + 1).drop_last() == pts@.take(i as int));
            assert(pts@.take(i + 1).last() == e);
        }
        sorted.insert(j, e);
        proof {
            assert(sorted@ == old_sorted.insert(j as int, e));
            vstd::seq_lib::to_multiset_insert(old_sorted, j as int, e);
            assert(pts@.take(i + 1) == pts@.take(i as int).push(e));
            vstd::seq_lib::to_multiset_build(pts@.take(i as int), e);
            assert forall|k: int| 0 <= k < sorted@.len() implies pts@.contains(#[trigger] sorted@[k]) by {
                if k < j {
                    assert(sorted@[k] == old_sorted[k]);
                } else if k > j {
                    assert(sorted@[k] == old_sorted[k - 1]);
                }
            }
            if total {
                assert forall|a: int, b: int| 0 <= a < b < sorted@.len() implies
                    edge_rank(#[trigger] sorted@[a]) <= edge_rank(#[trigger] sorted@[b]) by {
                    if b < j {
                        assert(sorted@[a] == old_sorted[a] && sorted@[b] == old_sorted[b]);
                    } else if a > j {
                        assert(sorted@[a] == old_sorted[a - 1] && sorted@[b] == old_sorted[b - 1]);
                    } else if a == j {
                        assert(sorted@[b] == old_sorted[b - 1]);
                    } else if b == j {
                        assert(sorted@[a] == old_sorted[a]);
                        assert(edge_rank(old_sorted[a]) <= edge_rank(old_sorted[j - 1]));
                    } else {
                        assert(sorted@[a] == old_sorted[a] && sorted@[b] == old_sorted[b - 1]);
                    }
                }
            }
        }
        i += 1;
    }
    proof {
        assert(pts@.take(n as int) == pts@);
    }
    sorted
}

/// Whether no point of `s` repeats the one just before it.
pub open spec fn no_adjacent_repeats(s: Seq<Point>) -> bool {
    forall|i: int, j: int| 0 <= i && j == i + 1 && j < s.len() ==> #[trigger] s[i] != #[trigger] s[j]
}

/// The points of `s` without those that repeat the point just before them in `s`.
pub open spec fn without_repeats(s: Seq<Point>) -> Seq<Point>
    decreases s.len(),
{
    if s.len() == 0 {
        s
    } else if s.len() >= 2 && s[s.len() - 2] == s.last() {
        without_repeats(s.drop_last())
    } else {
        without_repeats(s.drop_last()).push(s.last())
    }
}

/// Drops each point that repeats the one before it.
fn dedup_edge(pts: &Vec<Point>) -> (out: Vec<Point>)
    ensures
        out@ == without_repeats(pts@),
        forall|p: Point| out@.contains(p) <==> pts@.contains(p),
        no_adjacent_repeats(out@),
        rank_sorted(pts@) ==> forall|i: int, j: int|
            0 <= i < j < out@.len() ==> edge_rank(#[trigger] out@[i]) < edge_rank(#[trigger] out@[j]),
{
    let mut out: Vec<Point> = Vec::new();
    let n = pts.len();
    let mut i: usize = 0;
    while i < n
        invariant
            n == pts@.len(),
            0 <= i <= n,
            forall|p: Point| out@.contains(p) <==> pts@.take(i as int).contains(p),
            i > 0 ==> out@.len() > 0 && out@.last() == pts@[i - 1],
            i == 0 ==> out@.len() == 0,
            out@ == without_repeats(pts@.take(i as int)),
            no_adjacent_repeats(out@),
            rank_sorted(pts@) ==> forall|a: int, b: int|
                0 <= a < b < out@.len() ==> edge_rank(#[trigger] out@[a]) < edge_rank(#[trigger] out@[b]),
            rank_sorted(pts@) && i > 0 ==> forall|a: int|
                0 <= a < out@.len() ==> edge_rank(#[trigger] out@[a]) <= edge_rank(pts@[i - 1]),
        decreases n - i,
    {
        let p = pts[i];
        let ghost before = out@;
        assert(pts@.take(i + 1) == pts@.take(i as int).push(p));
        proof {
            let t = pts@.take(i + 1);
            assert(t.drop_last() == pts@.take(i as int));
            assert(t.last() == p);
            if i > 0 {
                assert(t[t.len() - 2] == pts@[i - 1]);
            }
        }
        if out.len() == 0 || out[out.len() - 1] != p {
            out.push(p);
            proof {
                if rank_sorted(pts@) && i > 0 {
                    assert(edge_rank(pts@[i - 1]) <= edge_rank(p));
                    if edge_rank(pts@[i - 1]) == edge_rank(p) {
                        lemma_edge_rank_injective(pts@[i - 1], p);
                    }
                }
                assert forall|q: Point| out@.contains(q) <==> pts@.take(i + 1).contains(q) by {
                    if out@.contains(q) {
                        let k = choose|k: int| 0 <= k < out@.len() && out@[k] == q;
                        if k < before.len() {
                            assert(before[k] == q);
                            assert(before.contains(q));
                            assert(pts@.take(i as int).contains(q));
                            let k2 = choose|k2: int| 0 <= k2 < i && #[trigger] pts@.take(i as int)[k2] == q;
                            assert(pts@.take(i + 1)[k2] == q);
                        } else {
                            assert(pts@.take(i + 1)[i as int] == q);
                        }
                    }
                    if pts@.take(i + 1).contains(q) {
                        let k = choose|k: int| 0 <= k < i + 1 && #[trigger] pts@.take(i + 1)[k] == q;
                        if k < i {
                            assert(pts@.take(i as int)[k] == q);
                            assert(before.contains(q));
                            let m = choose|m: int| 0 <= m < before.len() && before[m] == q;
                            assert(out@[m] == q);
                        } else {
                            assert(out@[before.len() as int] == q);
                        }
                    }
                }
            }
        } else {
            proof {
                assert forall|q: Point| out@.contains(q) <==> pts@.take(i + 1).contains(q) by {
                    if pts@.take(i + 1).contains(q) {
                        let k = choose|k: int| 0 <= k < i + 1 && #[trigger] pts@.take(i + 1)[k] == q;
                        if k < i {
                            assert(pts@.take(i as int)[k] == q);
                        } else {
                            assert(out@[out@.len() - 1] == q);
                        }
                    }
                    if out@.contains(q) {
                        assert(pts@.take(i as int).contains(q));
                        let k = choose|k: int| 0 <= k < i && #[trigger] pts@.take(i as int)[k] == q;
                        assert(pts@.take(i + 1)[k] == q);
                    }
                }
            }
        }
        i += 1;
    }
    proof {
        assert(pts@.take(n as int) == pts@);
    }
    out
}

/// The outline of the circle of `radius` pixels around `mid_point`, as the midpoint
/// algorithm draws it (each step emits a point in every octant, moving one row
/// outward while the error allows and one column inward otherwise), put in drawing
/// order, with repeated neighbours dropped.
pub fn draw_circle(mid_point: &Point, radius: u32) -> (circle: Circle)
    requires
        circle_fits(*mid_point, radius),
    ensures
        circle.center == *mid_point,
        circle.radius == radius,
        forall|p: Point| circle.edge@.contains(p) <==> circle_outline(*mid_point, radius).contains(p),
        no_adjacent_repeats(circle.edge@),
        edge_order_total(circle_outline(*mid_point, radius)) ==> forall|i: int, j: int|
            0 <= i < j < circle.edge@.len() ==> edge_before(#[trigger] circle.edge@[i], #[trigger] circle.edge@[j]),
        circle.edge@ == without_repeats(insertion_order(circle_outline(*mid_point, radius))),
{
    let raw = outline_points(mid_point, radius);
    let sorted = sort_edge(&raw);
    proof {
        assert forall|p: Point| sorted@.contains(p) <==> raw@.contains(p) by {
            vstd::seq_lib::to_multiset_contains(sorted@, p);
            vstd::seq_lib::to_multiset_contains(raw@, p);
        }
    }
    let edge = dedup_edge(&sorted);
    proof {
        if edge_order_total(raw@) {
            assert forall|i: int, j: int| 0 <= i < j < edge@.len() implies
                edge_before(#[trigger] edge@[i], #[trigger] edge@[j]) by {
                assert(edge@.contains(edge@[i]) && edge@.contains(edge@[j]));
                lemma_edge_before_is_rank_order(raw@, edge@[i], edge@[j]);
            }
        }
    }
    Circle { edge, center: *mid_point, radius }
}

/// The offset of `p` from `c`, column and row.
pub open spec fn dx_of(c: Point, p: Point) -> int {
    p.x - c.x
}

/// The row offset of `p` from `c`.
pub open spec fn dy_of(c: Point, p: Point) -> int {
    p.y - c.y
}

/// Column offset of the `k`-th of the eight images of (`x`, `y`).
pub open spec fn image_dx(x: int, y: int, k: int) -> int {
    if k == 0 || k == 1 { x } else if k == 2 || k == 7 { y } else if k == 3 || k == 6 { -y } else { -x }
}

/// Row offset of the `k`-th of the eight images of (`x`, `y`).
pub open spec fn image_dy(x: int, y: int, k: int) -> int {
    if k == 0 || k == 4 { y } else if k == 1 || k == 5 { -y } else if k == 2 || k == 3 { x } else { -x }
}

/// Where the mirror of the `k`-th image in the diagonal stands among the eight.
spec fn swap_image(k: int) -> int {
    if k == 0 { 2 } else if k == 1 { 3 } else if k == 2 { 0 } else if k == 3 { 1 }
    else if k == 4 { 7 } else if k == 5 { 6 } else if k == 6 { 5 } else { 4 }
}

/// Where the mirror of the `k`-th image in the vertical axis stands among the eight.
spec fn flip_x_image(k: int) -> int {
    if k == 0 { 4 } else if k == 1 { 5 } else if k == 2 { 3 } else if k == 3 { 2 }
    else if k == 4 { 0 } else if k == 5 { 1 } else if k == 6 { 7 } else { 6 }
}

/// Where the mirror of the `k`-th image in the horizontal axis stands among the eight.
spec fn flip_y_image(k: int) -> int {
    if k == 0 { 1 } else if k == 1 { 0 } else if k == 2 { 7 } else if k == 3 { 6 }
    else if k == 4 { 5 } else if k == 5 { 4 } else if k == 6 { 3 } else { 2 }
}

/// Whether every offset of at most `r` around `c` stays in the `i32` plane.
spec fn fits_around(c: Point, r: int) -> bool {
    &&& 0 <= r <= i32::MAX
    &&& i32::MIN <= c.x - r
    &&& c.x + r <= i32::MAX
    &&& i32::MIN <= c.y - r
    &&& c.y + r <= i32::MAX
}

/// The images of one step lie at their exact offsets, and the block of eight is closed
/// under the three mirrors.
proof fn lemma_block_image(c: Point, r: int, x: int, y: int, k: int)
    requires
        fits_around(c, r),
        0 <= y <= x <= r,
        0 <= k < 8,
    ensures
        dx_of(c, octant_points(c, x, y)[k]) == image_dx(x, y, k),
        dy_of(c, octant_points(c, x, y)[k]) == image_dy(x, y, k),
        octant_points(c, x, y)[swap_image(k)] == offset(c, image_dy(x, y, k), image_dx(x, y, k)),
        octant_points(c, x, y)[flip_x_image(k)] == offset(c, -image_dx(x, y, k), image_dy(x, y, k)),
        octant_points(c, x, y)[flip_y_image(k)] == offset(c, image_dx(x, y, k), -image_dy(x, y, k)),
        0 <= swap_image(k) < 8,
        0 <= flip_x_image(k) < 8,
        0 <= flip_y_image(k) < 8,
{
}

/// A point of the tail of a walk is a point of the whole walk.
proof fn lemma_contains_in_tail(head: Seq<Point>, tail: Seq<Point>, q: Point)
    requires
        tail.contains(q),
    ensures
        (head + tail).contains(q),
{
    let m = choose|m: int| 0 <= m < tail.len() && tail[m] == q;
    assert((head + tail)[head.len() + m] == q);
}

/// With each point it emits, the midpoint walk also emits the point's mirrors in the
/// diagonal and in both axes through `c`.
proof fn lemma_walk_symmetric(c: Point, r: int, x: int, y: int, err: int, p: Point)
    requires
        fits_around(c, r),
        0 <= y,
        x <= r,
        circle_walk(c, x, y, err).contains(p),
    ensures
        circle_walk(c, x, y, err).contains(offset(c, dy_of(c, p), dx_of(c, p))),
        circle_walk(c, x, y, err).contains(offset(c, -dx_of(c, p), dy_of(c, p))),
        circle_walk(c, x, y, err).contains(offset(c, dx_of(c, p), -dy_of(c, p))),
    decreases x - y + 1,
{
    let nx = if err <= 0 { x } else { x - 1 };
    let ny = if err <= 0 { y + 1 } else { y };
    let nerr = if err <= 0 { err + 2 * (y + 1) + 1 } else { err - 2 * (x - 1) - 1 };
    let block = octant_points(c, x, y);
    let rest = circle_walk(c, nx, ny, nerr);
    let w = circle_walk(c, x, y, err);
    assert(x >= y);
    assert(w == block + rest);
    let k = choose|k: int| 0 <= k < w.len() && w[k] == p;
    if k < 8 {
        assert(block[k] == p);
        lemma_block_image(c, r, x, y, k);
        assert(w[swap_image(k)] == block[swap_image(k)]);
        assert(w[flip_x_image(k)] == block[flip_x_image(k)]);
        assert(w[flip_y_image(k)] == block[flip_y_image(k)]);
    } else {
        assert(rest[k - 8] == p);
        lemma_walk_symmetric(c, r, nx, ny, nerr, p);
        lemma_contains_in_tail(block, rest, offset(c, dy_of(c, p), dx_of(c, p)));
        lemma_contains_in_tail(block, rest, offset(c, -dx_of(c, p), dy_of(c, p)));
        lemma_contains_in_tail(block, rest, offset(c, dx_of(c, p), -dy_of(c, p)));
    }
}

/// Every point the midpoint walk emits from a reachable state lies in a band around
/// the circle of radius `r`.
proof fn lemma_walk_ring(c: Point, r: int, x: int, y: int, err: int)
    requires
        fits_around(c, r),
        0 <= y,
        x <= r,
        err == x * x + y * y + 2 * y - r * r,
        -2 * x <= err <= 2 * y + 1,
    ensures
        forall|p: Point| #[trigger] circle_walk(c, x, y, err).contains(p) ==>
            r * r - 2 * (abs(dx_of(c, p)) + abs(dy_of(c, p)))
                <= dx_of(c, p) * dx_of(c, p) + dy_of(c, p) * dy_of(c, p) <= r * r + 1,
    decreases x - y + 1,
{
    if x >= y {
        let nx = if err <= 0 { x } else { x - 1 };
        let ny = if err <= 0 { y + 1 } else { y };
        let nerr = if err <= 0 { err + 2 * (y + 1) + 1 } else { err - 2 * (x - 1) - 1 };
        if err <= 0 {
            assert(nerr == nx * nx + ny * ny + 2 * ny - r * r) by (nonlinear_arith)
                requires err == x * x + y * y + 2 * y - r * r, nx == x, ny == y + 1,
                    nerr == err + 2 * (y + 1) + 1;
        } else {
            assert(x >= 1) by (nonlinear_arith)
                requires err == x * x + y * y + 2 * y - r * r, err > 0, 0 <= y <= x, x <= r;
            assert(nerr == nx * nx + ny * ny + 2 * ny - r * r) by (nonlinear_arith)
                requires err == x * x + y * y + 2 * y - r * r, nx == x - 1, ny == y,
                    nerr == err - 2 * (x - 1) - 1;
        }
        lemma_walk_ring(c, r, nx, ny, nerr);
        let block = octant_points(c, x, y);
        let rest = circle_walk(c, nx, ny, nerr);
        let w = circle_walk(c, x, y, err);
        assert(w == block + rest);
        assert forall|p: Point| #[trigger] w.contains(p) implies
            r * r - 2 * (abs(dx_of(c, p)) + abs(dy_of(c, p)))
                <= dx_of(c, p) * dx_of(c, p) + dy_of(c, p) * dy_of(c, p) <= r * r + 1 by {
            let k = choose|k: int| 0 <= k < w.len() && w[k] == p;
            if k < 8 {
                assert(block[k] == p);
                lemma_block_image(c, r, x, y, k);
                let dx = dx_of(c, p);
                let dy = dy_of(c, p);
                assert(dx * dx + dy * dy == x * x + y * y) by (nonlinear_arith)
                    requires
                        (dx == x || dx == -x) && (dy == y || dy == -y)
                        || (dx == y || dx == -y) && (dy == x || dy == -x),
                ;
                assert(abs(dx) + abs(dy) == x + y);
            } else {
                assert(rest[k - 8] == p);
                assert(rest.contains(p));
            }
        }
    }
}

/// The outline is symmetric about its centre: with each point it holds the point
/// mirrored in the diagonal, in the vertical axis and in the horizontal axis.
pub proof fn lemma_circle_symmetric(c: Point, radius: u32, p: Point)
    requires
        walk_radius(radius) >= 0,
        circle_fits(c, radius),
        circle_outline(c, radius).contains(p),
    ensures
        circle_outline(c, radius).contains(offset(c, dy_of(c, p), dx_of(c, p))),
        circle_outline(c, radius).contains(offset(c, -dx_of(c, p), dy_of(c, p))),
        circle_outline(c, radius).contains(offset(c, dx_of(c, p), -dy_of(c, p))),
{
    let r = walk_radius(radius);
    lemma_walk_symmetric(c, r, r, 0, 0, p);
}

/// Every point of the outline lies close to the circle: its squared distance from the
/// centre is at most the squared radius plus one, and falls short of the squared
/// radius by at most twice the sum of its offsets.
pub proof fn lemma_circle_ring(c: Point, radius: u32, p: Point)
    requires
        walk_radius(radius) >= 0,
        circle_fits(c, radius),
        circle_outline(c, radius).contains(p),
    ensures
        ({
            let r = walk_radius(radius);
            let dx = dx_of(c, p);
            let dy = dy_of(c, p);
            r * r - 2 * (abs(dx) + abs(dy)) <= dx * dx + dy * dy <= r * r + 1
        }),
{
    let r = walk_radius(radius);
    lemma_walk_ring(c, r, r, 0, 0);
}

} // verus!
