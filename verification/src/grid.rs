//! Row-major indexing of a raster and neighbourhoods of its pixels.
use vstd::prelude::*;
use crate::point::Point;
use crate::line::abs;

verus! {

/// Integer division rounded toward zero, as Rust's `/` computes it on signed integers.
pub open spec fn trunc_div(a: int, b: int) -> int {
    if a >= 0 { a / b } else { -((-a) / b) }
}

/// The index of `p` in a row-major raster of `len` pixels and `width` columns, if `p`
/// passes the bounds test: a non-negative column below the width, and a non-negative
/// row no greater than the number of rows (the length over the width, both taken as
/// `i32`, divided as Rust divides).
pub open spec fn spec_point_to_idx(p: Point, len: nat, width: u32) -> Option<usize> {
    let w = width as i32;
    if p.x < 0 || p.y < 0 || p.x >= w || p.y > trunc_div((len as i32) as int, w as int) {
        None
    } else {
        Some((width as int * p.y as int + p.x as int) as usize)
    }
}

/// The row-major index of `point` in `raster`, whose rows hold `width` pixels.
pub fn point_to_idx<T>(point: &Point, raster: &[T], width: u32) -> (res: Option<usize>)
    ensures
        res == spec_point_to_idx(*point, raster@.len(), width),
        res matches Some(i) ==> i == width * point.y + point.x,
{
    let w = #[verifier::truncate] (width as i32);
    if point.x < 0 || point.y < 0 || point.x >= w {
        return None;
    }
    let rows = (#[verifier::truncate] (raster.len() as i32)) / w;
    if point.y > rows {
        return None;
    }
    let ghost len_i: int = (raster@.len() as i32) as int;
    assert(w as int == width as int) by (bit_vector)
        requires
            w == width as i32,
            w > 0,
    ;
    assert(width * point.y <= i32::MAX) by (nonlinear_arith)
        requires
            0 <= point.y <= trunc_div(len_i, width as int),
            0 < width,
            len_i <= i32::MAX,
    {
        if len_i >= 0 {
            assert(width * (len_i / width as int) <= len_i);
        }
    }
    let idx: u32 = width * (point.y as u32) + point.x as u32;
    Some(idx as usize)
}

/// The point whose row-major index in a raster of `width` columns is `idx`.
pub open spec fn spec_idx_to_point(width: u32, idx: usize) -> Point {
    Point { x: (idx as int % width as int) as i32, y: (idx as int / width as int) as i32 }
}

/// The point (column, row) at row-major index `idx` of a raster of `width` columns.
pub fn idx_to_point(width: u32, idx: usize) -> (p: Point)
    requires
        width > 0,
    ensures
        p == spec_idx_to_point(width, idx),
{
    let x = idx % (width as usize);
    proof {
        vstd::arithmetic::div_mod::lemma_fundamental_div_mod(idx as int, width as int);
        vstd::arithmetic::mul::lemma_mul_is_commutative(width as int, idx as int / width as int);
        vstd::arithmetic::div_mod::lemma_fundamental_div_mod_converse(
            (idx - x) as int, width as int, idx as int / width as int, 0);
    }
    let y = (idx - x) / (width as usize);
    Point { x: #[verifier::truncate] (x as i32), y: #[verifier::truncate] (y as i32) }
}

/// A point that passes the bounds test of [`point_to_idx`] is the point found back at
/// its index by [`idx_to_point`].
pub proof fn lemma_point_idx_round_trip(p: Point, len: nat, width: u32)
    requires
        spec_point_to_idx(p, len, width) is Some,
    ensures
        width > 0,
        spec_idx_to_point(width, spec_point_to_idx(p, len, width)->0) == p,
{
    let w = width as i32;
    assert(w as int == width as int) by (bit_vector)
        requires
            w == width as i32,
            w > 0,
    ;
    let i = spec_point_to_idx(p, len, width)->0;
    let ghost len_i: int = (len as i32) as int;
    assert(width * p.y <= i32::MAX) by (nonlinear_arith)
        requires
            0 <= p.y <= trunc_div(len_i, width as int),
            0 < width,
            len_i <= i32::MAX,
    {
        if len_i >= 0 {
            assert(width * (len_i / width as int) <= len_i);
        }
    }
    assert(i as int == p.y as int * width as int + p.x as int) by (nonlinear_arith)
        requires
            i as int == (width as int * p.y as int + p.x as int) as usize as int,
            0 <= width as int * p.y as int + p.x as int <= u32::MAX,
    ;
    vstd::arithmetic::div_mod::lemma_fundamental_div_mod_converse(
        i as int, width as int, p.y as int, p.x as int);
}

/// Every index of a raster whose length and width fit in `i32` is the index of the
/// point that [`idx_to_point`] gives for it.
pub proof fn lemma_idx_point_round_trip(idx: usize, len: nat, width: u32)
    requires
        0 < width <= i32::MAX,
        idx < len <= i32::MAX,
    ensures
        spec_point_to_idx(spec_idx_to_point(width, idx), len, width) == Some(idx),
{
    let p = spec_idx_to_point(width, idx);
    vstd::arithmetic::div_mod::lemma_fundamental_div_mod(idx as int, width as int);
    assert(idx as int / width as int <= len as int / width as int) by {
        vstd::arithmetic::div_mod::lemma_div_is_ordered(idx as int, len as int, width as int);
    }
    assert(idx as int / width as int <= idx as int) by {
        vstd::arithmetic::div_mod::lemma_div_is_ordered_by_denominator(idx as int, 1, width as int);
    }
    assert((width as i32) as int == width as int);
    assert((len as i32) as int == len as int);
    assert(p.x as int == idx as int % width as int);
    assert(p.y as int == idx as int / width as int);
}

/// `Some(i)` when `cond` holds, `None` otherwise.
pub open spec fn index_if(cond: bool, i: int) -> Option<usize> {
    if cond { Some(i as usize) } else { None }
}

/// The four edge neighbours of pixel `idx` in a raster of `size` pixels and `width`
/// columns, in the order left, right, above, below. A side neighbour is missing at the
/// edge of a row, the pixel above in the first row, and the pixel below wherever
/// `idx + width` would reach `size`.
pub open spec fn spec_neighbors_less(idx: int, width: int, size: int) -> Seq<Option<usize>> {
    seq![
        index_if(idx % width != 0, idx - 1),
        index_if((idx + 1) % width != 0, idx + 1),
        index_if(idx >= width, idx - width),
        index_if(idx < size - width, idx + width),
    ]
}

/// The indices of the left, right, upper and lower neighbours of pixel `idx`.
pub fn get_neighbors_less(idx: usize, width: u32, size: usize) -> (ret: [Option<usize>; 4])
    requires
        width > 0,
        size >= width,
        idx < usize::MAX,
    ensures
        ret@ == spec_neighbors_less(idx as int, width as int, size as int),
        idx < size ==> forall|j: usize| #[trigger] ret@.contains(Some(j))
            <==> edge_adjacent(idx as int, j as int, width as int)
                && (j < size || grid_row(j as int, width as int) == grid_row(idx as int, width as int)),
{
    let w = width as usize;
    proof {
        vstd::arithmetic::div_mod::lemma_small_mod(0, w as nat);
    }
    let left = if idx % w != 0 { Some(idx - 1) } else { None };
    let right = if (idx + 1) % w != 0 { Some(idx + 1) } else { None };
    let up = if idx >= w { Some(idx - w) } else { None };
    let down = if idx < size - w { Some(idx + w) } else { None };
    let ret = [left, right, up, down];
    assert(ret@ =~= spec_neighbors_less(idx as int, width as int, size as int));
    proof {
        if idx < size {
            assert forall|j: usize| #[trigger] ret@.contains(Some(j))
                <==> edge_adjacent(idx as int, j as int, width as int)
                    && (j < size || grid_row(j as int, width as int) == grid_row(idx as int, width as int)) by {
                lemma_neighbors_less_share_edges(idx, width, size, j);
            }
        }
    }
    ret
}

/// Being an edge neighbour is symmetric: pixel `j` of the raster is among the four
/// neighbours of pixel `i` exactly when `i` is among those of `j`.
pub proof fn lemma_neighbors_less_symmetric(i: usize, j: usize, width: u32, size: usize)
    requires
        width > 0,
        size >= width,
        i < size,
        j < size,
    ensures
        spec_neighbors_less(i as int, width as int, size as int).contains(Some(j))
            <==> spec_neighbors_less(j as int, width as int, size as int).contains(Some(i)),
{
    let w = width as int;
    let ni = spec_neighbors_less(i as int, w, size as int);
    let nj = spec_neighbors_less(j as int, w, size as int);
    vstd::arithmetic::div_mod::lemma_small_mod(0, width as nat);
    if ni.contains(Some(j)) {
        let k = choose|k: int| 0 <= k < ni.len() && ni[k] == Some(j);
        if k == 0 {
            assert(nj[1] == Some(i));
        } else if k == 1 {
            assert(nj[0] == Some(i));
        } else if k == 2 {
            assert(nj[3] == Some(i));
        } else {
            assert(nj[2] == Some(i));
        }
    }
    if nj.contains(Some(i)) {
        let k = choose|k: int| 0 <= k < nj.len() && nj[k] == Some(i);
        if k == 0 {
            assert(ni[1] == Some(j));
        } else if k == 1 {
            assert(ni[0] == Some(j));
        } else if k == 2 {
            assert(ni[3] == Some(j));
        } else {
            assert(ni[2] == Some(j));
        }
    }
}

/// The eight neighbours of pixel `idx` in a raster of `size` pixels and `width`
/// columns: left, lower left, upper left, right, lower right, upper right, above and
/// below. The diagonals above are taken only when `idx` is greater than `width`.
pub open spec fn spec_neighbors(idx: int, width: int, size: int) -> Seq<Option<usize>> {
    let has_left = idx % width != 0;
    let has_right = (idx + 1) % width != 0;
    let has_below = idx < size - width;
    let has_above = idx >= width;
    let diag_above = idx > width;
    seq![
        index_if(has_left, idx - 1),
        index_if(has_left && has_below, idx + width - 1),
        index_if(has_left && diag_above, idx - width - 1),
        index_if(has_right, idx + 1),
        index_if(has_right && has_below, idx + width + 1),
        index_if(has_right && diag_above, idx - width + 1),
        index_if(has_above, idx - width),
        index_if(has_below, idx + width),
    ]
}

/// The indices of the eight neighbours of pixel `idx`.
pub fn get_neighbors(idx: usize, width: u32, size: usize) -> (ret: [Option<usize>; 8])
    requires
        width > 0,
        size >= width,
        idx < usize::MAX,
    ensures
        ret@ == spec_neighbors(idx as int, width as int, size as int),
        idx < size ==> forall|j: usize| #[trigger] ret@.contains(Some(j))
            ==> touching(idx as int, j as int, width as int),
        idx < size ==> forall|j: usize| j < size ==> (#[trigger] ret@.contains(Some(j)) <==> {
            let w = width as int;
            let dr = grid_row(j as int, w) - grid_row(idx as int, w);
            let dc = grid_col(j as int, w) - grid_col(idx as int, w);
            &&& touching(idx as int, j as int, w)
            &&& !(idx == width && dr == -1 && dc == 1)
            &&& !(j == size - 1 && dr == 1 && dc == -1)
        }),
{
    let w = width as usize;
    proof {
        vstd::arithmetic::div_mod::lemma_small_mod(0, w as nat);
    }
    let mut r0: Option<usize> = None;
    let mut r1: Option<usize> = None;
    let mut r2: Option<usize> = None;
    let mut r3: Option<usize> = None;
    let mut r4: Option<usize> = None;
    let mut r5: Option<usize> = None;
    let mut r6: Option<usize> = None;
    let mut r7: Option<usize> = None;
    if idx % w != 0 {
        r0 = Some(idx - 1);
        if idx < size - w {
            r1 = Some(idx + w - 1);
        }
        if idx > w {
            r2 = Some(idx - w - 1);
        }
    }
    if (idx + 1) % w != 0 {
        r3 = Some(idx + 1);
        if idx < size - w {
            r4 = Some(idx + w + 1);
        }
        if idx > w {
            r5 = Some(idx - w + 1);
        }
    }
    if idx >= w {
        r6 = Some(idx - w);
    }
    if idx < size - w {
        r7 = Some(idx + w);
    }
    let ret = [r0, r1, r2, r3, r4, r5, r6, r7];
    assert(ret@ =~= spec_neighbors(idx as int, width as int, size as int));
    proof {
        if idx < size {
            assert forall|j: usize| #[trigger] ret@.contains(Some(j)) implies
                touching(idx as int, j as int, width as int) by {
                lemma_neighbors_touch(idx, width, size, j);
            }
            assert forall|j: usize| j < size implies (#[trigger] ret@.contains(Some(j)) <==> {
                let w = width as int;
                let dr = grid_row(j as int, w) - grid_row(idx as int, w);
                let dc = grid_col(j as int, w) - grid_col(idx as int, w);
                &&& touching(idx as int, j as int, w)
                &&& !(idx == width && dr == -1 && dc == 1)
                &&& !(j == size - 1 && dr == 1 && dc == -1)
            }) by {
                lemma_neighbors_touch(idx, width, size, j);
            }
        }
    }
    ret
}

/// Whether the pixel at neighbour `n` (when there is one) counts as bordering: it has
/// no data, or its value is `search_value`.
pub open spec fn neighbor_matches(raster: Seq<Option<bool>>, n: Option<usize>, search_value: bool) -> bool {
    match n {
        Some(j) => match raster[j as int] {
            Some(b) => b == search_value,
            None => true,
        },
        None => false,
    }
}

/// Whether pixel `idx` borders on `search_value`: one of its four edge neighbours has
/// no data or holds `search_value`.
pub open spec fn spec_bordering_on(raster: Seq<Option<bool>>, idx: int, width: int, search_value: bool) -> bool {
    let nb = spec_neighbors_less(idx, width, raster.len() as int);
    ||| neighbor_matches(raster, nb[0], search_value)
    ||| neighbor_matches(raster, nb[1], search_value)
    ||| neighbor_matches(raster, nb[2], search_value)
    ||| neighbor_matches(raster, nb[3], search_value)
}

/// Whether the neighbours of pixel `idx` can be read in order, left first, up to the
/// first that borders: they all lie in the raster, except a right neighbour past its
/// end, which is never reached when the left neighbour already borders.
pub open spec fn neighbors_readable(raster: Seq<Option<bool>>, idx: int, width: int, search_value: bool) -> bool {
    let nb = spec_neighbors_less(idx, width, raster.len() as int);
    &&& 0 < width <= raster.len()
    &&& 0 <= idx < raster.len()
    &&& (idx + 1 >= raster.len() && nb[1] is Some) ==> neighbor_matches(raster, nb[0], search_value)
}

/// Whether pixel `idx` has a neighbour with no data or with the value `search_value`.
pub fn bordering_on(raster: &[Option<bool>], idx: usize, width: u32, search_value: bool) -> (res: bool)
    requires
        neighbors_readable(raster@, idx as int, width as int, search_value),
    ensures
        res == spec_bordering_on(raster@, idx as int, width as int, search_value),
{
    let len_exec = raster.len();
    let nb = get_neighbors_less(idx, width, len_exec);
    proof {
        vstd::arithmetic::div_mod::lemma_small_mod(0, width as nat);
    }
    let ghost nbs = spec_neighbors_less(idx as int, width as int, raster@.len() as int);
    let mut k: usize = 0;
    while k < 4
        invariant
            0 <= k <= 4,
            nb@ == nbs,
            nbs == spec_neighbors_less(idx as int, width as int, raster@.len() as int),
            len_exec == raster@.len(),
            0int % (width as int) == 0,
            neighbors_readable(raster@, idx as int, width as int, search_value),
            forall|j: int| 0 <= j < k ==> !neighbor_matches(raster@, #[trigger] nbs[j], search_value),
        decreases 4 - k,
    {
        if let Some(n) = nb[k] {
            assert(nbs[k as int] == Some(n));
            proof {
                let len = raster@.len() as int;
                let w = width as int;
                let i = idx as int;
                if k == 0 {
                    assert(n as int == i - 1);
                } else if k == 1 {
                    assert(n as int == i + 1);
                    assert(!neighbor_matches(raster@, nbs[0], search_value));
                } else if k == 2 {
                    assert(n as int == i - w);
                } else {
                    assert(n as int == i + w);
                    assert(i < len - w);
                }
            }
            assert(n < raster@.len());
            let found = match raster[n] {
                Some(b) => b == search_value,
                None => true,
            };
            if found {
                assert(neighbor_matches(raster@, nbs[k as int], search_value));
                return true;
            }
        }
        k += 1;
    }
    assert(!neighbor_matches(raster@, nbs[0], search_value));
    assert(!neighbor_matches(raster@, nbs[1], search_value));
    assert(!neighbor_matches(raster@, nbs[2], search_value));
    assert(!neighbor_matches(raster@, nbs[3], search_value));
    false
}

/// Whether pixel `i` is kept by [`aggregate_valid_pix`]: it holds `true` and borders
/// on `search_value`.
pub open spec fn valid_pix(raster: Seq<Option<bool>>, i: int, width: int, search_value: bool) -> bool {
    raster[i] == Some(true) && spec_bordering_on(raster, i, width, search_value)
}

/// The indices, in increasing order, of the pixels that hold `true` and border on
/// `search_value`.
pub fn aggregate_valid_pix(raster: &[Option<bool>], width: u32, search_value: bool) -> (res: Vec<usize>)
    requires
        forall|i: int| 0 <= i < raster@.len() && raster@[i] == Some(true)
            ==> #[trigger] neighbors_readable(raster@, i, width as int, search_value),
    ensures
        forall|a: int, b: int| 0 <= a < b < res@.len() ==> res@[a] < res@[b],
        forall|k: int| 0 <= k < res@.len() ==> #[trigger] res@[k] < raster@.len()
            && valid_pix(raster@, res@[k] as int, width as int, search_value),
        forall|i: int| 0 <= i < raster@.len() && #[trigger] valid_pix(raster@, i, width as int, search_value)
            ==> res@.contains(i as usize),
{
    let mut res: Vec<usize> = Vec::new();
    let n = raster.len();
    let mut i: usize = 0;
    while i < n
        invariant
            n == raster@.len(),
            0 <= i <= n,
            forall|i: int| 0 <= i < raster@.len() && raster@[i] == Some(true)
                ==> #[trigger] neighbors_readable(raster@, i, width as int, search_value),
            forall|a: int, b: int| 0 <= a < b < res@.len() ==> res@[a] < res@[b],
            forall|k: int| 0 <= k < res@.len() ==> #[trigger] res@[k] < i
                && valid_pix(raster@, res@[k] as int, width as int, search_value),
            forall|j: int| 0 <= j < i && #[trigger] valid_pix(raster@, j, width as int, search_value)
                ==> res@.contains(j as usize),
        decreases n - i,
    {
        if raster[i] == Some(true) {
            assert(neighbors_readable(raster@, i as int, width as int, search_value));
            if bordering_on(raster, i, width, search_value) {
                let ghost before = res@;
                res.push(i);
                proof {
                    assert forall|j: int| 0 <= j < i + 1 && #[trigger] valid_pix(raster@, j, width as int, search_value)
                        implies res@.contains(j as usize) by {
                        if j < i {
                            assert(before.contains(j as usize));
                            let m = choose|m: int| 0 <= m < before.len() && before[m] == j as usize;
                            assert(res@[m] == j as usize);
                        } else {
                            assert(res@[before.len() as int] == j as usize);
                        }
                    }
                }
            } else {
                proof {
                    assert forall|j: int| 0 <= j < i + 1 && #[trigger] valid_pix(raster@, j, width as int, search_value)
                        implies res@.contains(j as usize) by {
                        if j == i {
                            assert(false);
                        }
                    }
                }
            }
        }
        i += 1;
    }
    res
}

/// The pixels that a bilinear sample at pixel `idx` averages: the pixel itself, the one
/// below it, the one to its right and the one below and to the right. The pixel below
/// is missing wherever `idx + width` would reach `size`, the one to the right at the
/// end of a row.
pub open spec fn spec_interp_neighbors(idx: int, width: int, size: int) -> Seq<Option<usize>> {
    let below = idx < size - width;
    let right = (idx + 1) % width != 0;
    seq![
        Some(idx as usize),
        index_if(below, idx + width),
        index_if(right, idx + 1),
        index_if(below && right, idx + width + 1),
    ]
}

/// Where the samples `nb` of a bilinear sample at pixel `i` stand relative to pixel
/// `j`: the second is `j` exactly when `j` is the pixel below `i` and in the raster,
/// the third exactly when `j` is the pixel to the right of `i` in its row, the fourth
/// exactly when `j` is below and to the right and the row below reaches `i`'s column.
pub open spec fn interp_sample_places(nb: Seq<Option<usize>>, i: usize, width: u32, size: usize, j: usize) -> bool {
    let w = width as int;
    let dr = grid_row(j as int, w) - grid_row(i as int, w);
    let dc = grid_col(j as int, w) - grid_col(i as int, w);
    &&& nb[1] == Some(j) <==> dr == 1 && dc == 0 && j < size
    &&& nb[2] == Some(j) <==> dr == 0 && dc == 1
    &&& nb[3] == Some(j) <==> dr == 1 && dc == 1 && i + width < size
}

/// The indices of the pixels that a bilinear sample at pixel `idx` averages.
pub fn interp_neighbors(idx: usize, width: u32, size: usize) -> (ret: [Option<usize>; 4])
    requires
        width > 0,
        size >= width,
        idx < usize::MAX,
    ensures
        ret@ == spec_interp_neighbors(idx as int, width as int, size as int),
        ret@[0] == Some(idx),
        idx < size ==> forall|j: usize| #![trigger grid_row(j as int, width as int)]
            interp_sample_places(ret@, idx, width, size, j),
{
    let w = width as usize;
    let below = idx < size - w;
    let right = (idx + 1) % w != 0;
    let ret = [
        Some(idx),
        if below { Some(idx + w) } else { None },
        if right { Some(idx + 1) } else { None },
        if below && right { Some(idx + w + 1) } else { None },
    ];
    assert(ret@ =~= spec_interp_neighbors(idx as int, width as int, size as int));
    proof {
        if idx < size {
            assert forall|j: usize| #![trigger grid_row(j as int, width as int)]
                interp_sample_places(ret@, idx, width, size, j) by {
                lemma_interp_neighbors_stand(idx, width, size, j);
            }
        }
    }
    ret
}

/// The number of pixels of the elevation rasters that the viewshed program reads:
/// 257 rows of 257 pixels.
pub const LEN: usize = 66_049;

/// The row-major index of `p` computed in `i32`, with the width taken as an `i32`.
pub open spec fn raster_index(width: u32, p: Point) -> int {
    (width as i32) as int * p.y + p.x
}

/// Whether `p` names a pixel of a raster with `width` columns: a column in
/// `0..width` and a non-negative row.
pub open spec fn in_columns(width: u32, p: Point) -> bool {
    0 <= p.x < width && 0 <= p.y
}

/// The pixel at `point` of a raster of `width` columns, when the point lies in one of
/// its columns, on a non-negative row, and its index falls among the first [`LEN`]
/// pixels; `None` otherwise. The index is computed in `i32`, so the `requires` rule
/// out the points whose index overflows, and an index below [`LEN`] past the end of
/// `pixels`.
pub fn pixel_at<H: Copy>(pixels: &[Option<H>], width: u32, point: &Point) -> (v: Option<H>)
    requires
        i32::MIN <= (width as i32) as int * point.y <= i32::MAX,
        i32::MIN <= raster_index(width, *point) <= i32::MAX,
        0 <= raster_index(width, *point) < LEN ==> raster_index(width, *point) < pixels@.len(),
    ensures
        v == if in_columns(width, *point) && 0 <= raster_index(width, *point) < LEN {
            pixels@[raster_index(width, *point)]
        } else {
            None
        },
{
    let w = #[verifier::truncate] (width as i32);
    let idx: i32 = (w * point.y) + point.x;
    if point.x >= 0 && (point.x as u32) < width && point.y >= 0 && idx >= 0 && idx < 66_049 {
        pixels[idx as usize]
    } else {
        None
    }
}


/// The row of index `i` in a raster of `w` columns.
pub open spec fn grid_row(i: int, w: int) -> int {
    i / w
}

/// The column of index `i` in a raster of `w` columns.
pub open spec fn grid_col(i: int, w: int) -> int {
    i % w
}

/// Whether the pixels at indices `i` and `j` share an edge: one step apart along a
/// row or along a column of a raster of `w` columns.
pub open spec fn edge_adjacent(i: int, j: int, w: int) -> bool {
    abs(grid_col(i, w) - grid_col(j, w)) + abs(grid_row(i, w) - grid_row(j, w)) == 1
}

/// Whether the pixels at indices `i` and `j` touch at an edge or a corner.
pub open spec fn touching(i: int, j: int, w: int) -> bool {
    &&& abs(grid_col(i, w) - grid_col(j, w)) <= 1
    &&& abs(grid_row(i, w) - grid_row(j, w)) <= 1
    &&& !(grid_col(i, w) == grid_col(j, w) && grid_row(i, w) == grid_row(j, w))
}

/// Moving `dr` rows and `dc` columns within the raster moves the index by
/// `dr * w + dc`.
proof fn lemma_grid_step(i: int, w: int, dr: int, dc: int)
    requires
        w > 0,
        0 <= grid_col(i, w) + dc < w,
    ensures
        grid_row(i + dr * w + dc, w) == grid_row(i, w) + dr,
        grid_col(i + dr * w + dc, w) == grid_col(i, w) + dc,
{
    vstd::arithmetic::div_mod::lemma_fundamental_div_mod(i, w);
    let q = i / w;
    let r = i % w;
    assert(i + dr * w + dc == (q + dr) * w + (r + dc)) by (nonlinear_arith)
        requires i == w * q + r;
    vstd::arithmetic::div_mod::lemma_fundamental_div_mod_converse(i + dr * w + dc, w, q + dr, r + dc);
}

/// Two indices differ by their row difference times `w` plus their column difference.
proof fn lemma_grid_offset(i: int, j: int, w: int)
    requires
        w > 0,
        i >= 0,
        j >= 0,
    ensures
        j == i + (grid_row(j, w) - grid_row(i, w)) * w + (grid_col(j, w) - grid_col(i, w)),
        0 <= grid_col(i, w) < w,
        0 <= grid_col(j, w) < w,
{
    vstd::arithmetic::div_mod::lemma_fundamental_div_mod(i, w);
    vstd::arithmetic::div_mod::lemma_fundamental_div_mod(j, w);
    vstd::arithmetic::div_mod::lemma_mod_pos_bound(i, w);
    vstd::arithmetic::div_mod::lemma_mod_pos_bound(j, w);
    let qi = i / w;
    let qj = j / w;
    assert((qj - qi) * w == w * qj - w * qi) by (nonlinear_arith);
}

/// Exactly the pixels that share an edge with pixel `i` are its four neighbours, except
/// that the right neighbour is also given when it lies one past the end of the raster
/// (at the end of a short last row).
pub proof fn lemma_neighbors_less_share_edges(i: usize, width: u32, size: usize, j: usize)
    requires
        width > 0,
        size >= width,
        i < size,
    ensures
        spec_neighbors_less(i as int, width as int, size as int).contains(Some(j))
            <==> edge_adjacent(i as int, j as int, width as int)
                && (j < size || grid_row(j as int, width as int) == grid_row(i as int, width as int)),
{
    let w = width as int;
    let ii = i as int;
    let jj = j as int;
    let nb = spec_neighbors_less(ii, w, size as int);
    lemma_grid_offset(ii, jj, w);
    vstd::arithmetic::div_mod::lemma_fundamental_div_mod(ii, w);
    let q = grid_row(ii, w);
    let r = grid_col(ii, w);
    if nb.contains(Some(j)) {
        let k = choose|k: int| 0 <= k < nb.len() && nb[k] == Some(j);
        if k == 0 {
            lemma_grid_step(ii, w, 0, -1);
        } else if k == 1 {
            if r + 1 == w {
                assert(ii + 1 == (q + 1) * w + 0) by (nonlinear_arith)
                    requires ii == w * q + r, r + 1 == w;
                vstd::arithmetic::div_mod::lemma_fundamental_div_mod_converse(ii + 1, w, q + 1, 0);
                assert(false);
            }
            lemma_grid_step(ii, w, 0, 1);
        } else if k == 2 {
            lemma_grid_step(ii, w, -1, 0);
        } else {
            lemma_grid_step(ii, w, 1, 0);
        }
    }
    if edge_adjacent(ii, jj, w) && (j < size || grid_row(jj, w) == q) {
        let dr = grid_row(jj, w) - q;
        let dc = grid_col(jj, w) - r;
        if dr == 0 {
            if dc == -1 {
                assert(jj == ii - 1);
                assert(nb[0] == Some(j));
            } else {
                assert(jj == ii + 1);
                lemma_grid_step(ii, w, 0, 1);
                assert(nb[1] == Some(j));
            }
        } else if dr == -1 {
            assert(dr * w == -w) by (nonlinear_arith) requires dr == -1;
            assert(jj == ii - w);
            assert(nb[2] == Some(j));
        } else {
            assert(dr * w == w) by (nonlinear_arith) requires dr == 1;
            assert(jj == ii + w);
            assert(nb[3] == Some(j));
        }
    }
}


/// The eight neighbours of pixel `i` are exactly the pixels of the raster that touch
/// it at an edge or a corner, save two: the upper-right pixel when `i` is `width`
/// itself (the first pixel of the second row, which has none, is tested in its place),
/// and the lower-left pixel when it is the last pixel of the raster. Any neighbour
/// given beyond the raster still touches `i`.
pub proof fn lemma_neighbors_touch(i: usize, width: u32, size: usize, j: usize)
    requires
        width > 0,
        size >= width,
        i < size,
    ensures
        spec_neighbors(i as int, width as int, size as int).contains(Some(j))
            ==> touching(i as int, j as int, width as int),
        j < size ==> (spec_neighbors(i as int, width as int, size as int).contains(Some(j)) <==> {
            let w = width as int;
            let dr = grid_row(j as int, w) - grid_row(i as int, w);
            let dc = grid_col(j as int, w) - grid_col(i as int, w);
            &&& touching(i as int, j as int, w)
            &&& !(i == width && dr == -1 && dc == 1)
            &&& !(j == size - 1 && dr == 1 && dc == -1)
        }),
{
    let w = width as int;
    let ii = i as int;
    let jj = j as int;
    let nb = spec_neighbors(ii, w, size as int);
    lemma_grid_offset(ii, jj, w);
    vstd::arithmetic::div_mod::lemma_fundamental_div_mod(ii, w);
    let q = grid_row(ii, w);
    let r = grid_col(ii, w);
    if r + 1 == w {
        assert(ii + 1 == (q + 1) * w + 0) by (nonlinear_arith)
            requires ii == w * q + r, r + 1 == w;
        vstd::arithmetic::div_mod::lemma_fundamental_div_mod_converse(ii + 1, w, q + 1, 0);
    } else {
        lemma_grid_step(ii, w, 0, 1);
    }
    if ii >= w {
        assert(q >= 1) by (nonlinear_arith)
            requires ii == w * q + r, 0 <= r < w, ii >= w;
    } else {
        assert(q == 0) by (nonlinear_arith)
            requires ii == w * q + r, 0 <= r < w, 0 <= ii < w;
    }
    if ii == w {
        vstd::arithmetic::div_mod::lemma_fundamental_div_mod_converse(ii, w, 1, 0);
    }
    if nb.contains(Some(j)) {
        let k = choose|k: int| 0 <= k < nb.len() && nb[k] == Some(j);
        if k == 0 {
            lemma_grid_step(ii, w, 0, -1);
        } else if k == 1 {
            lemma_grid_step(ii, w, 1, -1);
            assert(1 * w == w);
        } else if k == 2 {
            lemma_grid_step(ii, w, -1, -1);
            assert((-1) * w == -w);
        } else if k == 3 {
        } else if k == 4 {
            lemma_grid_step(ii, w, 1, 1);
            assert(1 * w == w);
        } else if k == 5 {
            lemma_grid_step(ii, w, -1, 1);
            assert((-1) * w == -w);
        } else if k == 6 {
            lemma_grid_step(ii, w, -1, 0);
            assert((-1) * w == -w);
        } else {
            lemma_grid_step(ii, w, 1, 0);
            assert(1 * w == w);
        }
    }
    let dr = grid_row(jj, w) - q;
    let dc = grid_col(jj, w) - r;
    if j < size && touching(ii, jj, w) && !(i == width && dr == -1 && dc == 1)
        && !(j == size - 1 && dr == 1 && dc == -1) {
        if dr == 0 {
            if dc == -1 {
                assert(jj == ii - 1);
                assert(nb[0] == Some(j));
            } else {
                assert(jj == ii + 1);
                assert(nb[3] == Some(j));
            }
        } else if dr == -1 {
            assert(dr * w == -w) by (nonlinear_arith) requires dr == -1;
            if dc == -1 {
                assert(jj == ii - w - 1);
                assert(nb[2] == Some(j));
            } else if dc == 0 {
                assert(nb[6] == Some(j));
            } else {
                assert(jj == ii - w + 1);
                assert(nb[5] == Some(j));
            }
        } else {
            assert(dr * w == w) by (nonlinear_arith) requires dr == 1;
            if dc == -1 {
                assert(jj == ii + w - 1);
                assert(nb[1] == Some(j));
            } else if dc == 0 {
                assert(nb[7] == Some(j));
            } else {
                assert(jj == ii + w + 1);
                assert(nb[4] == Some(j));
            }
        }
    }
}

/// The pixels a bilinear sample at pixel `i` averages, by where they stand: the pixel
/// itself; the pixel below it, when the raster reaches that far; the pixel to its right
/// in the same row, whether or not there is a row below; and the pixel below and to
/// the right, when both of the others are there.
pub proof fn lemma_interp_neighbors_stand(i: usize, width: u32, size: usize, j: usize)
    requires
        width > 0,
        size >= width,
        i < size,
    ensures
        spec_interp_neighbors(i as int, width as int, size as int)[0] == Some(i),
        interp_sample_places(spec_interp_neighbors(i as int, width as int, size as int), i, width, size, j),
{
    let w = width as int;
    let ii = i as int;
    let jj = j as int;
    let nb = spec_interp_neighbors(ii, w, size as int);
    lemma_grid_offset(ii, jj, w);
    vstd::arithmetic::div_mod::lemma_fundamental_div_mod(ii, w);
    let q = grid_row(ii, w);
    let r = grid_col(ii, w);
    let dr = grid_row(jj, w) - q;
    let dc = grid_col(jj, w) - r;
    if r + 1 == w {
        assert(ii + 1 == (q + 1) * w + 0) by (nonlinear_arith)
            requires ii == w * q + r, r + 1 == w;
        vstd::arithmetic::div_mod::lemma_fundamental_div_mod_converse(ii + 1, w, q + 1, 0);
    } else {
        lemma_grid_step(ii, w, 0, 1);
        lemma_grid_step(ii, w, 1, 1);
        assert(1 * w == w);
    }
    lemma_grid_step(ii, w, 1, 0);
    assert(1 * w == w);
    if dr == 1 {
        assert(dr * w == w) by (nonlinear_arith) requires dr == 1;
    }
    if dr == 0 {
        assert(dr * w == 0) by (nonlinear_arith) requires dr == 0;
    }
}

} // verus!
