//! Line-of-sight decisions along a rasterised line, and the result raster they fill.
use vstd::prelude::*;
use crate::point::{Point, Circle};
use crate::grid::{point_to_idx, spec_point_to_idx, LEN};
use crate::line::{draw_line, line_fits, line_points};

verus! {

/// One sample along a line of sight: the slope from the line's first point to a later
/// one, reduced to what the visibility decision reads. Slopes are compared through an
/// order-preserving integer rank.
#[derive(Clone, Copy, Debug, PartialEq, Eq, Structural)]
pub enum Slope {
    /// A height is missing at one end, so there is no slope.
    NoData,
    /// The slope of the line's first point to itself: below every other slope.
    NegInfinity,
    /// A slope, by its rank: larger ranks are steeper.
    Rank(i64),
    /// A slope that compares with no other (not a number).
    Unordered,
}

/// Whether the rank `x` is at least every rank among the first `i` samples.
pub open spec fn rank_dominates(s: Seq<Slope>, i: int, x: i64) -> bool {
    forall|j: int| 0 <= j < i ==> (#[trigger] s[j] matches Slope::Rank(y) ==> y <= x)
}

/// Whether sample `i` is visible from the first point of the line. A ranked sample is
/// visible when no earlier sample rises more steeply; an unordered one never is; the
/// first point's own sample always is; a sample without data repeats the decision
/// made for the last ranked or unordered sample before it (visible if there is none).
pub open spec fn sample_visible(s: Seq<Slope>, i: int) -> bool
    decreases i, 1int,
{
    match s[i] {
        Slope::Rank(x) => rank_dominates(s, i, x),
        Slope::Unordered => false,
        Slope::NegInfinity => true,
        Slope::NoData => carried_visibility(s, i),
    }
}

/// The decision a sample without data at position `i` repeats: that of the last
/// ranked or unordered sample before `i`, or visible if there is none.
pub open spec fn carried_visibility(s: Seq<Slope>, i: int) -> bool
    decreases i, 0int,
{
    if i <= 0 {
        true
    } else {
        match s[i - 1] {
            Slope::Rank(_) => sample_visible(s, i - 1),
            Slope::Unordered => sample_visible(s, i - 1),
            _ => carried_visibility(s, i - 1),
        }
    }
}

/// Whether `h` is the steepest rank among the first `i` samples (`None`: there is no
/// rank among them).
pub open spec fn is_highest_rank(s: Seq<Slope>, i: int, h: Option<i64>) -> bool {
    match h {
        None => forall|j: int| 0 <= j < i ==> !(#[trigger] s[j] is Rank),
        Some(v) => (exists|j: int| 0 <= j < i && #[trigger] s[j] == Slope::Rank(v)) && rank_dominates(s, i, v),
    }
}

/// The visibility of each sample of a line of sight, in order.
pub open spec fn visibility(s: Seq<Slope>) -> Seq<bool> {
    Seq::new(s.len(), |i: int| sample_visible(s, i))
}

/// Which samples of a line of sight are visible from its first point, in order.
pub fn line_visibility(slopes: &Vec<Slope>) -> (visible: Vec<bool>)
    ensures
        visible@.len() == slopes@.len(),
        forall|i: int| 0 <= i < slopes@.len() ==> #[trigger] visible@[i] == sample_visible(slopes@, i),
        visible@ == visibility(slopes@),
{
    let mut visible: Vec<bool> = Vec::new();
    let mut highest: Option<i64> = None;
    let mut last_was_true: bool = true;
    let n = slopes.len();
    let mut i: usize = 0;
    while i < n
        invariant
            n == slopes@.len(),
            0 <= i <= n,
            visible@.len() == i,
            forall|j: int| 0 <= j < i ==> #[trigger] visible@[j] == sample_visible(slopes@, j),
            last_was_true == carried_visibility(slopes@, i as int),
            is_highest_rank(slopes@, i as int, highest),
        decreases n - i,
    {
        let s = slopes[i];
        let ghost sq = slopes@;
        let v = match s {
            Slope::NoData => last_was_true,
            Slope::NegInfinity => true,
            Slope::Rank(x) => {
                let up = match highest {
                    None => true,
                    Some(h) => x >= h,
                };
                proof {
                    if up {
                        assert(rank_dominates(sq, i as int, x)) by {
                            assert forall|j: int| 0 <= j < i implies
                                (#[trigger] sq[j] matches Slope::Rank(y) ==> y <= x) by {
                                if let Slope::Rank(y) = sq[j] {
                                    if let Some(h) = highest {
                                        assert(y <= h);
                                    }
                                }
                            }
                        }
                    } else {
                        let h = highest->0;
                        let j = choose|j: int| 0 <= j < i && #[trigger] sq[j] == Slope::Rank(h);
                        assert(sq[j] matches Slope::Rank(y) && !(y <= x));
                    }
                }
                if up {
                    highest = Some(x);
                }
                last_was_true = up;
                up
            },
            Slope::Unordered => {
                last_was_true = false;
                false
            },
        };
        proof {
            assert(sq[i as int] == s);
            assert(v == sample_visible(sq, i as int));
            assert(last_was_true == carried_visibility(sq, i + 1));
            match highest {
                None => {
                    assert forall|j: int| 0 <= j < i + 1 implies !(#[trigger] sq[j] is Rank) by {
                        if j < i {
                        }
                    }
                }
                Some(h) => {
                    if s == Slope::Rank(h) {
                        assert(sq[i as int] == Slope::Rank(h));
                    } else {
                        let j = choose|j: int| 0 <= j < i && #[trigger] sq[j] == Slope::Rank(h);
                        assert(sq[j] == Slope::Rank(h));
                    }
                    assert forall|j: int| 0 <= j < i + 1 implies
                        (#[trigger] sq[j] matches Slope::Rank(y) ==> y <= h) by {
                    }
                }
            }
        }
        visible.push(v);
        i += 1;
    }
    assert(visible@ =~= visibility(slopes@));
    visible
}

/// Along a line of sight, the slopes of the visible ranked samples never fall: each
/// visible point is at least as steep as every visible point before it.
pub proof fn lemma_visible_slopes_rise(s: Seq<Slope>, i: int, j: int)
    requires
        0 <= i < j < s.len(),
        s[i] is Rank,
        s[j] is Rank,
        sample_visible(s, j),
    ensures
        s[i]->Rank_0 <= s[j]->Rank_0,
{
    assert(s[i] matches Slope::Rank(y) ==> y <= s[j]->Rank_0);
}

/// The result pixels after the first `n` points of `line` have been marked with their
/// visibility: each point that lies on the raster (by [`point_to_idx`]) sets its pixel,
/// later points over earlier ones.
pub open spec fn marked(
    result: Seq<Option<bool>>,
    line: Seq<Point>,
    visible: Seq<bool>,
    raster_len: nat,
    width: u32,
    n: int,
) -> Seq<Option<bool>>
    decreases n,
{
    if n <= 0 {
        result
    } else {
        let before = marked(result, line, visible, raster_len, width, n - 1);
        match spec_point_to_idx(line[n - 1], raster_len, width) {
            Some(i) => before.update(i as int, Some(visible[n - 1])),
            None => before,
        }
    }
}

/// The number of points of a line that carry a visibility: the shorter of the two.
pub open spec fn marked_len(line: Seq<Point>, visible: Seq<bool>) -> int {
    if line.len() < visible.len() { line.len() as int } else { visible.len() as int }
}

/// Whether every point of `line` that lies on the raster maps into the result.
pub open spec fn line_fits_result(line: Seq<Point>, n: int, raster_len: nat, width: u32, result_len: nat) -> bool {
    forall|k: int| 0 <= k < n ==> (#[trigger] spec_point_to_idx(line[k], raster_len, width) matches Some(i)
        ==> i < result_len)
}

/// Marking a line changes only the pixels its points land on, and each of those ends
/// up with the visibility of the last point of the line that lands on it.
pub proof fn lemma_marked_pixel(
    result: Seq<Option<bool>>,
    line: Seq<Point>,
    visible: Seq<bool>,
    raster_len: nat,
    width: u32,
    n: int,
    i: usize,
)
    requires
        0 <= n <= line.len(),
        n <= visible.len(),
        i < result.len(),
        line_fits_result(line, n, raster_len, width, result.len()),
    ensures
        marked(result, line, visible, raster_len, width, n).len() == result.len(),
        (forall|k: int| 0 <= k < n ==> spec_point_to_idx(#[trigger] line[k], raster_len, width) != Some(i))
            ==> marked(result, line, visible, raster_len, width, n)[i as int] == result[i as int],
        forall|k: int| 0 <= k < n && spec_point_to_idx(#[trigger] line[k], raster_len, width) == Some(i)
            && (forall|k2: int| k < k2 < n ==> spec_point_to_idx(#[trigger] line[k2], raster_len, width) != Some(i))
            ==> marked(result, line, visible, raster_len, width, n)[i as int] == Some(visible[k]),
    decreases n,
{
    if n > 0 {
        let before = marked(result, line, visible, raster_len, width, n - 1);
        let now = marked(result, line, visible, raster_len, width, n);
        let last = spec_point_to_idx(line[n - 1], raster_len, width);
        lemma_marked_pixel(result, line, visible, raster_len, width, n - 1, i);
        if let Some(j) = last {
            assert(j < result.len());
            assert(now == before.update(j as int, Some(visible[n - 1])));
        } else {
            assert(now == before);
        }
        assert forall|k: int| 0 <= k < n && spec_point_to_idx(#[trigger] line[k], raster_len, width) == Some(i)
            && (forall|k2: int| k < k2 < n ==> spec_point_to_idx(#[trigger] line[k2], raster_len, width) != Some(i))
            implies now[i as int] == Some(visible[k]) by {
            if k < n - 1 {
                assert(last != Some(i));
                assert(forall|k2: int| k < k2 < n - 1 ==> spec_point_to_idx(#[trigger] line[k2], raster_len, width) != Some(i));
                assert(before[i as int] == Some(visible[k]));
            }
        }
    }
}

/// Marks in `result` the visibility of each point of `line` that lies on `raster`
/// (whose rows hold `width` pixels).
pub fn record_line<H>(
    result: &mut Vec<Option<bool>>,
    line: &Vec<Point>,
    visible: &Vec<bool>,
    raster: &[H],
    width: u32,
)
    requires
        line_fits_result(line@, marked_len(line@, visible@), raster@.len(), width, old(result)@.len()),
    ensures
        final(result)@ == marked(old(result)@, line@, visible@, raster@.len(), width, marked_len(line@, visible@)),
        final(result)@.len() == old(result)@.len(),
{
    let n = if line.len() < visible.len() { line.len() } else { visible.len() };
    let mut k: usize = 0;
    while k < n
        invariant
            n == marked_len(line@, visible@),
            0 <= k <= n,
            n <= line@.len(),
            n <= visible@.len(),
            line_fits_result(line@, n as int, raster@.len(), width, old(result)@.len()),
            result@ == marked(old(result)@, line@, visible@, raster@.len(), width, k as int),
            result@.len() == old(result)@.len(),
        decreases n - k,
    {
        let ghost before = result@;
        if let Some(idx) = point_to_idx(&line[k], raster, width) {
            assert(spec_point_to_idx(line@[k as int], raster@.len(), width) == Some(idx));
            result.set(idx, Some(visible[k]));
        }
        k += 1;
    }
}

/// The result pixels after the lines from `origin` to the first `n` points of `edge`
/// have been marked, each with the visibility of its samples in `samples`: later lines
/// over earlier ones.
pub open spec fn viewshed_marks(
    result: Seq<Option<bool>>,
    origin: Point,
    edge: Seq<Point>,
    samples: Seq<Vec<Slope>>,
    raster_len: nat,
    width: u32,
    n: int,
) -> Seq<Option<bool>>
    decreases n,
{
    if n <= 0 {
        result
    } else {
        let line = line_points(origin, edge[n - 1]);
        let vis = visibility(samples[n - 1]@);
        marked(
            viewshed_marks(result, origin, edge, samples, raster_len, width, n - 1),
            line,
            vis,
            raster_len,
            width,
            marked_len(line, vis),
        )
    }
}

/// Whether every line from `origin` to a point of `edge` can be drawn and marks only
/// pixels of a result of `result_len` pixels.
pub open spec fn lines_fit(
    origin: Point,
    edge: Seq<Point>,
    samples: Seq<Vec<Slope>>,
    raster_len: nat,
    width: u32,
    result_len: nat,
) -> bool {
    forall|k: int| 0 <= k < edge.len() ==> {
        &&& line_fits(origin, #[trigger] edge[k])
        &&& line_fits_result(
            line_points(origin, edge[k]),
            marked_len(line_points(origin, edge[k]), visibility(samples[k]@)),
            raster_len,
            width,
            result_len,
        )
    }
}

/// Whether the line to the `k`-th point of `edge` marks pixel `i`.
pub open spec fn line_reaches(
    origin: Point,
    edge: Seq<Point>,
    samples: Seq<Vec<Slope>>,
    raster_len: nat,
    width: u32,
    k: int,
    i: usize,
) -> bool {
    let line = line_points(origin, edge[k]);
    exists|j: int| 0 <= j < marked_len(line, visibility(samples[k]@))
        && #[trigger] spec_point_to_idx(line[j], raster_len, width) == Some(i)
}

/// The viewshed from `origin` over a raster of `width` columns: for each point of the
/// circle's outline, in order, the line from `origin` to it is drawn and its pixels are
/// marked with the visibility of the line's samples (`samples[k]` for the `k`-th
/// point); the last line to reach a pixel decides it, and pixels that no line reaches
/// stay undecided.
pub fn check_raster<H, C>(
    raster: &[H],
    width: u32,
    x0: C,
    y1: C,
    circle: Circle,
    origin: &Point,
    samples: &Vec<Vec<Slope>>,
) -> (r: ResultRaster<C>)
    requires
        samples@.len() == circle.edge@.len(),
        lines_fit(*origin, circle.edge@, samples@, raster@.len(), width, LEN as nat),
    ensures
        r.pixels@ == viewshed_marks(
            Seq::new(LEN as nat, |i: int| None::<bool>),
            *origin,
            circle.edge@,
            samples@,
            raster@.len(),
            width,
            circle.edge@.len() as int,
        ),
        r.width == width,
        r.x0 == x0,
        r.y1 == y1,
        r.circle == circle,
{
    let mut result_vec: Vec<Option<bool>> = Vec::new();
    let mut i: usize = 0;
    while i < LEN
        invariant
            0 <= i <= LEN,
            result_vec@ == Seq::new(i as nat, |j: int| None::<bool>),
        decreases LEN - i,
    {
        result_vec.push(None);
        i += 1;
    }
    let ghost init = result_vec@;
    let n = circle.edge.len();
    let mut k: usize = 0;
    while k < n
        invariant
            n == circle.edge@.len(),
            samples@.len() == n,
            0 <= k <= n,
            lines_fit(*origin, circle.edge@, samples@, raster@.len(), width, LEN as nat),
            init == Seq::new(LEN as nat, |j: int| None::<bool>),
            result_vec@.len() == LEN,
            result_vec@ == viewshed_marks(init, *origin, circle.edge@, samples@, raster@.len(), width, k as int),
        decreases n - k,
    {
        assert(line_fits(*origin, circle.edge@[k as int]));
        let line = draw_line(origin, &circle.edge[k]);
        let vis = line_visibility(&samples[k]);
        record_line(&mut result_vec, &line, &vis, raster, width);
        k += 1;
    }
    ResultRaster::new(result_vec, width, x0, y1, circle)
}

/// In the viewshed, a pixel that no line reaches stays as it was, and a pixel that
/// some line reaches is decided by the last line that reaches it, at the last point of
/// that line that lands on it.
pub proof fn lemma_viewshed_pixel(
    result: Seq<Option<bool>>,
    origin: Point,
    edge: Seq<Point>,
    samples: Seq<Vec<Slope>>,
    raster_len: nat,
    width: u32,
    n: int,
    i: usize,
)
    requires
        0 <= n <= edge.len(),
        samples.len() == edge.len(),
        i < result.len(),
        lines_fit(origin, edge, samples, raster_len, width, result.len()),
    ensures
        viewshed_marks(result, origin, edge, samples, raster_len, width, n).len() == result.len(),
        (forall|k: int| 0 <= k < n ==> !#[trigger] line_reaches(origin, edge, samples, raster_len, width, k, i))
            ==> viewshed_marks(result, origin, edge, samples, raster_len, width, n)[i as int] == result[i as int],
        forall|k: int, j: int|
            0 <= k < n
            && 0 <= j < marked_len(line_points(origin, edge[k]), visibility(samples[k]@))
            && #[trigger] spec_point_to_idx(line_points(origin, edge[k])[j], raster_len, width) == Some(i)
            && (forall|j2: int| j < j2 < marked_len(line_points(origin, edge[k]), visibility(samples[k]@))
                ==> spec_point_to_idx(#[trigger] line_points(origin, edge[k])[j2], raster_len, width) != Some(i))
            && (forall|k2: int| k < k2 < n
                ==> !#[trigger] line_reaches(origin, edge, samples, raster_len, width, k2, i))
            ==> viewshed_marks(result, origin, edge, samples, raster_len, width, n)[i as int]
            == Some(visibility(samples[k]@)[j]),
    decreases n,
{
    if n > 0 {
        lemma_viewshed_pixel(result, origin, edge, samples, raster_len, width, n - 1, i);
        let before = viewshed_marks(result, origin, edge, samples, raster_len, width, n - 1);
        let line = line_points(origin, edge[n - 1]);
        let vis = visibility(samples[n - 1]@);
        let m = marked_len(line, vis);
        assert(line_fits_result(line, m, raster_len, width, result.len()));
        lemma_marked_pixel(before, line, vis, raster_len, width, m, i);
        if !line_reaches(origin, edge, samples, raster_len, width, n - 1, i) {
            assert forall|j: int| 0 <= j < m implies spec_point_to_idx(#[trigger] line[j], raster_len, width) != Some(i) by {
            }
        }
    }
}

/// The outcome of a viewshed: for each pixel whether it can be seen (`None` where no
/// line of sight reached it), with the raster's geometry and the circle that bounded
/// the search. `C` is the type of the map coordinates of the raster's corner.
pub struct ResultRaster<C> {
    pub pixels: Vec<Option<bool>>,
    pub width: u32,
    pub x0: C,
    pub y1: C,
    pub circle: Circle,
}

/// How many of the first `n` entries of `s` are `Some(v)`.
pub open spec fn count_value(s: Seq<Option<bool>>, n: int, v: bool) -> nat
    decreases n,
{
    if n <= 0 {
        0
    } else {
        count_value(s, n - 1, v) + if s[n - 1] == Some(v) { 1nat } else { 0nat }
    }
}

impl<C> ResultRaster<C> {
    /// A result raster made of its parts.
    pub fn new(result_vec: Vec<Option<bool>>, width: u32, x0: C, y1: C, circle: Circle) -> (r: ResultRaster<C>)
        ensures
            r.pixels == result_vec,
            r.width == width,
            r.x0 == x0,
            r.y1 == y1,
            r.circle == circle,
    {
        ResultRaster { pixels: result_vec, width, x0, y1, circle }
    }

    /// The result at `point`: the pixel at `width * y + x` when `point` lies in one of
    /// the raster's columns on a non-negative row, `None` otherwise.
    pub fn value_at(&self, point: &Point) -> (v: Option<bool>)
        requires
            crate::grid::in_columns(self.width, *point) ==> {
                &&& self.width * point.y + point.x <= u32::MAX
                &&& self.width * point.y + point.x < self.pixels@.len()
            },
        ensures
            v == if crate::grid::in_columns(self.width, *point) {
                self.pixels@[self.width * point.y + point.x]
            } else {
                None
            },
    {
        if point.x < 0 || point.y < 0 || (point.x as u32) >= self.width {
            return None;
        }
        let y = point.y as u32;
        let x = point.x as u32;
        assert(self.width * y <= u32::MAX);
        let idx: u32 = (self.width * y) + x;
        self.pixels[idx as usize]
    }

    /// Counts the decided pixels: how many are visible, how many hidden, and how many
    /// in all.
    pub fn check_result(&self) -> (counts: (usize, usize, usize))
        ensures
            counts.0 == count_value(self.pixels@, self.pixels@.len() as int, true),
            counts.1 == count_value(self.pixels@, self.pixels@.len() as int, false),
            counts.2 == counts.0 + counts.1,
    {
        let n = self.pixels.len();
        let mut num_true: usize = 0;
        let mut num_false: usize = 0;
        let mut i: usize = 0;
        while i < n
            invariant
                n == self.pixels@.len(),
                0 <= i <= n,
                num_true == count_value(self.pixels@, i as int, true),
                num_false == count_value(self.pixels@, i as int, false),
                num_true + num_false <= i,
            decreases n - i,
        {
            match self.pixels[i] {
                Some(true) => num_true += 1,
                Some(false) => num_false += 1,
                None => {},
            }
            i += 1;
        }
        (num_true, num_false, num_true + num_false)
    }

    /// The result as grey levels, row by row over the whole rows of the raster: 255
    /// where the pixel can be seen, 0 where it is hidden or undecided.
    pub fn grey_levels(&self) -> (levels: Vec<u8>)
        requires
            self.width > 0,
        ensures
            levels@.len() == self.width * (self.pixels@.len() as int / self.width as int),
            forall|k: int| 0 <= k < levels@.len() ==>
                #[trigger] levels@[k] == if self.pixels@[k] == Some(true) { 255u8 } else { 0u8 },
    {
        let w = self.width as usize;
        let rows = self.pixels.len() / w;
        proof {
            vstd::arithmetic::div_mod::lemma_fundamental_div_mod(self.pixels@.len() as int, w as int);
            vstd::arithmetic::div_mod::lemma_mod_pos_bound(self.pixels@.len() as int, w as int);
            assert(w * rows <= self.pixels@.len());
        }
        let n = w * rows;
        let mut levels: Vec<u8> = Vec::new();
        let mut k: usize = 0;
        while k < n
            invariant
                n <= self.pixels@.len(),
                n == self.width * (self.pixels@.len() as int / self.width as int),
                0 <= k <= n,
                levels@.len() == k,
                forall|j: int| 0 <= j < k ==>
                    #[trigger] levels@[j] == if self.pixels@[j] == Some(true) { 255u8 } else { 0u8 },
            decreases n - k,
        {
            let level: u8 = if self.pixels[k] == Some(true) { 255 } else { 0 };
            levels.push(level);
            k += 1;
        }
        levels
    }
}

} // verus!
