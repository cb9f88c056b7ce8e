//! Bresenham rasterisation of the segment between two grid points.
use vstd::prelude::*;
use crate::point::Point;

verus! {

/// The points of the rasterised segment from `p1` to `p2`, in order.
pub open spec fn line_points(p1: Point, p2: Point) -> Seq<Point> {
    Seq::new((line_longest(p1, p2) + 1) as nat, |k: int| line_point(p1, p2, k))
}

/// Whether the offsets from `p1` to `p2` are within `i32` in both coordinates.
pub open spec fn line_fits(p1: Point, p2: Point) -> bool {
    &&& -i32::MAX <= p2.x - p1.x <= i32::MAX
    &&& -i32::MAX <= p2.y - p1.y <= i32::MAX
}

/// Absolute value.
pub open spec fn abs(v: int) -> int {
    if v < 0 { -v } else { v }
}

/// The unit step toward the sign of `d`; a difference of zero steps forward.
pub open spec fn unit_step(d: int) -> int {
    if d < 0 { -1 } else { 1 }
}

/// Whether the segment runs more along `x` than along `y`; ties run along `y`.
pub open spec fn runs_along_x(p1: Point, p2: Point) -> bool {
    abs(p2.x - p1.x) > abs(p2.y - p1.y)
}

/// The extent of the segment along its main axis: the number of steps it takes.
pub open spec fn line_longest(p1: Point, p2: Point) -> int {
    if runs_along_x(p1, p2) { abs(p2.x - p1.x) } else { abs(p2.y - p1.y) }
}

/// The extent of the segment along its other axis.
pub open spec fn line_shortest(p1: Point, p2: Point) -> int {
    if runs_along_x(p1, p2) { abs(p2.y - p1.y) } else { abs(p2.x - p1.x) }
}

/// How far the `k`-th point of the line has moved along the other axis: the error
/// term starts at half the long extent and grows by the short extent at each step,
/// and each time it reaches the long extent the line moves one pixel sideways.
pub open spec fn side_offset(p1: Point, p2: Point, k: int) -> int {
    let l = line_longest(p1, p2);
    if l == 0 { 0 } else { (l / 2 + k * line_shortest(p1, p2)) / l }
}

/// The `k`-th point of the rasterised segment from `p1` to `p2`.
pub open spec fn line_point(p1: Point, p2: Point, k: int) -> Point {
    let sx = unit_step(p2.x - p1.x);
    let sy = unit_step(p2.y - p1.y);
    let m = side_offset(p1, p2, k);
    if runs_along_x(p1, p2) {
        Point { x: (p1.x + sx * k) as i32, y: (p1.y + sy * m) as i32 }
    } else {
        Point { x: (p1.x + sx * m) as i32, y: (p1.y + sy * k) as i32 }
    }
}

/// The sideways offset never passes the short extent while the line has not passed
/// its end.
proof fn lemma_side_offset_bounds(p1: Point, p2: Point, k: int)
    requires
        0 <= k <= line_longest(p1, p2),
    ensures
        0 <= side_offset(p1, p2, k) <= line_shortest(p1, p2),
{
    let l = line_longest(p1, p2);
    let s = line_shortest(p1, p2);
    if l > 0 {
        assert(0 <= k * s <= l * s) by (nonlinear_arith)
            requires 0 <= k <= l, 0 <= s;
        vstd::arithmetic::div_mod::lemma_div_is_ordered(l / 2 + k * s, l / 2 + l * s, l);
        vstd::arithmetic::div_mod::lemma_div_pos_is_pos(l / 2 + k * s, l);
        vstd::arithmetic::div_mod::lemma_fundamental_div_mod_converse(l / 2 + l * s, l, s, l / 2);
    }
}

/// The points of the segment from `p1` to `p2` found by Bresenham's algorithm: one
/// point per step along the main axis, from `p1` to `p2` inclusive.
pub fn draw_line(p1: &Point, p2: &Point) -> (line: Vec<Point>)
    requires
        line_fits(*p1, *p2),
    ensures
        line@.len() == line_longest(*p1, *p2) + 1,
        forall|k: int| 0 <= k < line@.len() ==> #[trigger] line@[k] == line_point(*p1, *p2, k),
        line@ == line_points(*p1, *p2),
{
    let mut ret_vec: Vec<Point> = Vec::new();
    let delta_x: i64 = p2.x as i64 - p1.x as i64;
    let delta_y: i64 = p2.y as i64 - p1.y as i64;

    let dx1: i64 = if delta_x < 0 { -1 } else { 1 };
    let dy1: i64 = if delta_y < 0 { -1 } else { 1 };
    let mut dx2: i64 = if delta_x < 0 { -1 } else { 1 };
    let mut dy2: i64 = 0;

    let abs_x: i64 = if delta_x < 0 { -delta_x } else { delta_x };
    let abs_y: i64 = if delta_y < 0 { -delta_y } else { delta_y };
    let mut longest: i64 = abs_x;
    let mut shortest: i64 = abs_y;

    if !(longest > shortest) {
        longest = abs_y;
        shortest = abs_x;
        if delta_y < 0 { dy2 = -1 } else { dy2 = 1 }
        dx2 = 0;
    }

    if longest == 0 {
        ret_vec.push(*p1);
        assert(ret_vec@ =~= line_points(*p1, *p2));
        return ret_vec;
    }

    let ghost along_x = runs_along_x(*p1, *p2);
    assert(longest == line_longest(*p1, *p2));
    assert(shortest == line_shortest(*p1, *p2));

    let mut numerator: i64 = longest / 2;
    let mut curr_x: i64 = p1.x as i64;
    let mut curr_y: i64 = p1.y as i64;
    let mut k: i64 = 0;
    let ghost mut m: int = 0;
    let ghost mut k_s: int = 0;
    let ghost mut m_l: int = 0;

    while k <= longest
        invariant
            0 < longest <= i32::MAX,
            0 <= shortest <= longest,
            longest == line_longest(*p1, *p2),
            shortest == line_shortest(*p1, *p2),
            along_x == runs_along_x(*p1, *p2),
            dx1 == unit_step(p2.x - p1.x),
            dy1 == unit_step(p2.y - p1.y),
            along_x ==> dx2 == dx1 && dy2 == 0,
            !along_x ==> dx2 == 0 && dy2 == dy1,
            0 <= k <= longest + 1,
            0 <= numerator < longest,
            k_s == k * shortest,
            m_l == m * longest,
            m_l + numerator == longest / 2 + k_s,
            along_x ==> curr_x == p1.x + dx1 * k && curr_y == p1.y + dy1 * m,
            !along_x ==> curr_x == p1.x + dx1 * m && curr_y == p1.y + dy1 * k,
            ret_vec@.len() == k,
            forall|j: int| 0 <= j < k ==> #[trigger] ret_vec@[j] == line_point(*p1, *p2, j),
        decreases longest + 1 - k,
    {
        proof {
            vstd::arithmetic::div_mod::lemma_fundamental_div_mod_converse(
                longest / 2 + k_s, longest as int, m, numerator as int);
            assert(m == side_offset(*p1, *p2, k as int));
            lemma_side_offset_bounds(*p1, *p2, k as int);
        }
        let pt = Point { x: curr_x as i32, y: curr_y as i32 };
        assert(pt == line_point(*p1, *p2, k as int));
        ret_vec.push(pt);
        numerator += shortest;
        proof {
            assert((k + 1) * shortest == k * shortest + shortest) by (nonlinear_arith);
            k_s = k_s + shortest;
        }
        if !(numerator < longest) {
            numerator -= longest;
            curr_x += dx1;
            curr_y += dy1;
            proof {
                assert((m + 1) * longest == m * longest + longest) by (nonlinear_arith);
                m = m + 1;
                m_l = m_l + longest;
            }
        } else {
            curr_x += dx2;
            curr_y += dy2;
        }
        k += 1;
    }
    assert(ret_vec@ =~= line_points(*p1, *p2));
    ret_vec
}

/// From one point to the next the sideways offset grows by zero or one.
proof fn lemma_side_offset_step(p1: Point, p2: Point, k: int)
    requires
        0 <= k,
    ensures
        side_offset(p1, p2, k + 1) == side_offset(p1, p2, k)
            || side_offset(p1, p2, k + 1) == side_offset(p1, p2, k) + 1,
{
    let l = line_longest(p1, p2);
    let s = line_shortest(p1, p2);
    if l > 0 {
        let a = l / 2 + k * s;
        assert(l / 2 + (k + 1) * s == a + s) by (nonlinear_arith)
            requires a == l / 2 + k * s;
        vstd::arithmetic::div_mod::lemma_fundamental_div_mod(a, l);
        let q = a / l;
        let r = a % l;
        assert(a == q * l + r) by (nonlinear_arith)
            requires a == l * (a / l) + (a % l), q == a / l, r == a % l;
        if r + s < l {
            vstd::arithmetic::div_mod::lemma_fundamental_div_mod_converse(a + s, l, q, r + s);
        } else {
            assert(a + s == (q + 1) * l + (r + s - l)) by (nonlinear_arith)
                requires a == q * l + r;
            vstd::arithmetic::div_mod::lemma_fundamental_div_mod_converse(a + s, l, q + 1, r + s - l);
        }
    }
}

/// Up to the end of the segment its points lie between `p1` and `p2`, so their
/// coordinates are the exact offsets from `p1`, with no wrap-around.
proof fn lemma_line_point_exact(p1: Point, p2: Point, k: int)
    requires
        0 <= k <= line_longest(p1, p2),
    ensures
        ({
            let sx = unit_step(p2.x - p1.x);
            let sy = unit_step(p2.y - p1.y);
            let m = side_offset(p1, p2, k);
            let pt = line_point(p1, p2, k);
            &&& runs_along_x(p1, p2) ==> pt.x == p1.x + sx * k && pt.y == p1.y + sy * m
            &&& !runs_along_x(p1, p2) ==> pt.x == p1.x + sx * m && pt.y == p1.y + sy * k
        }),
{
    lemma_side_offset_bounds(p1, p2, k);
    let m = side_offset(p1, p2, k);
    let sx = unit_step(p2.x - p1.x);
    let sy = unit_step(p2.y - p1.y);
    if p2.x - p1.x < 0 {
        assert(sx * k == -k && sx * m == -m);
    } else {
        assert(sx * k == k && sx * m == m);
    }
    if p2.y - p1.y < 0 {
        assert(sy * k == -k && sy * m == -m);
    } else {
        assert(sy * k == k && sy * m == m);
    }
}

/// A difference is its unit step times its absolute value.
proof fn lemma_step_times_abs(d: int)
    ensures
        unit_step(d) * abs(d) == d,
{
    if d < 0 {
        assert(unit_step(d) * abs(d) == d) by (nonlinear_arith)
            requires unit_step(d) == -1, abs(d) == -d;
    } else {
        assert(unit_step(d) * abs(d) == d) by (nonlinear_arith)
            requires unit_step(d) == 1, abs(d) == d;
    }
}

/// The rasterised segment starts at `p1` and ends at `p2`.
pub proof fn lemma_line_endpoints(p1: Point, p2: Point)
    ensures
        line_point(p1, p2, 0) == p1,
        line_point(p1, p2, line_longest(p1, p2)) == p2,
{
    let l = line_longest(p1, p2);
    let s = line_shortest(p1, p2);
    lemma_line_point_exact(p1, p2, 0);
    lemma_line_point_exact(p1, p2, l);
    if l > 0 {
        vstd::arithmetic::div_mod::lemma_fundamental_div_mod_converse(l / 2, l, 0, l / 2);
        assert(l / 2 + l * s == s * l + l / 2) by (nonlinear_arith);
        vstd::arithmetic::div_mod::lemma_fundamental_div_mod_converse(l / 2 + l * s, l, s, l / 2);
    }
    let dx = p2.x - p1.x;
    let dy = p2.y - p1.y;
    lemma_step_times_abs(dx);
    lemma_step_times_abs(dy);
    assert(side_offset(p1, p2, l) == s);
    let e = line_point(p1, p2, l);
    assert(e.x == p1.x + unit_step(dx) * abs(dx));
    assert(e.y == p1.y + unit_step(dy) * abs(dy));
    assert(e.x == p2.x && e.y == p2.y);
}

/// Consecutive points of the rasterised segment touch: each step moves exactly one
/// pixel along the main axis and at most one pixel along the other, so the line has
/// no gaps and visits no pixel twice.
pub proof fn lemma_line_steps(p1: Point, p2: Point, k: int)
    requires
        0 <= k < line_longest(p1, p2),
    ensures
        ({
            let a = line_point(p1, p2, k);
            let b = line_point(p1, p2, k + 1);
            &&& abs(b.x - a.x) <= 1
            &&& abs(b.y - a.y) <= 1
            &&& runs_along_x(p1, p2) ==> abs(b.x - a.x) == 1
            &&& !runs_along_x(p1, p2) ==> abs(b.y - a.y) == 1
        }),
{
    lemma_side_offset_step(p1, p2, k);
    lemma_line_point_exact(p1, p2, k);
    lemma_line_point_exact(p1, p2, k + 1);
    let sx = unit_step(p2.x - p1.x);
    let sy = unit_step(p2.y - p1.y);
    let m0 = side_offset(p1, p2, k);
    let m1 = side_offset(p1, p2, k + 1);
    assert(sx * (k + 1) == sx * k + sx) by (nonlinear_arith);
    assert(sy * (k + 1) == sy * k + sy) by (nonlinear_arith);
    if m1 == m0 + 1 {
        assert(sx * m1 == sx * m0 + sx) by (nonlinear_arith) requires m1 == m0 + 1;
        assert(sy * m1 == sy * m0 + sy) by (nonlinear_arith) requires m1 == m0 + 1;
    }
}

} // verus!
