use viewshed::grid::{
    aggregate_valid_pix, bordering_on, get_neighbors, get_neighbors_less, idx_to_point,
    interp_neighbors, pixel_at, point_to_idx, LEN,
};
use viewshed::point::Point;

fn p(x: i32, y: i32) -> Point {
    Point { x, y }
}

#[test]
fn point_to_idx_inside() {
    let raster = vec![0u8; 9];
    assert_eq!(point_to_idx(&p(1, 1), &raster, 3), Some(4));
    assert_eq!(point_to_idx(&p(2, 2), &raster, 3), Some(8));
    assert_eq!(point_to_idx(&p(0, 0), &raster, 3), Some(0));
}

#[test]
fn point_to_idx_outside() {
    let raster = vec![0u8; 9];
    assert_eq!(point_to_idx(&p(3, 0), &raster, 3), None);
    assert_eq!(point_to_idx(&p(-1, 0), &raster, 3), None);
    assert_eq!(point_to_idx(&p(0, -1), &raster, 3), None);
    assert_eq!(point_to_idx(&p(0, 4), &raster, 3), None);
}

#[test]
fn point_to_idx_row_test_is_inclusive() {
    // The row bound compares with `>`, so the row just past the last one passes.
    let raster = vec![0u8; 9];
    assert_eq!(point_to_idx(&p(0, 3), &raster, 3), Some(9));
}

#[test]
fn point_to_idx_zero_width() {
    let raster = vec![0u8; 9];
    assert_eq!(point_to_idx(&p(0, 0), &raster, 0), None);
}

#[test]
fn idx_to_point_examples() {
    assert_eq!(idx_to_point(3, 7), p(1, 2));
    assert_eq!(idx_to_point(257, 258), p(1, 1));
    assert_eq!(idx_to_point(5, 0), p(0, 0));
}

#[test]
fn index_point_round_trip() {
    let raster = vec![0u8; 20];
    for i in 0..20usize {
        let q = idx_to_point(4, i);
        assert_eq!(point_to_idx(&q, &raster, 4), Some(i));
    }
    for y in 0..5 {
        for x in 0..4 {
            let i = point_to_idx(&p(x, y), &raster, 4).unwrap();
            assert_eq!(idx_to_point(4, i), p(x, y));
        }
    }
}

#[test]
fn neighbors_less_examples() {
    assert_eq!(get_neighbors_less(4, 3, 9), [Some(3), Some(5), Some(1), Some(7)]);
    assert_eq!(get_neighbors_less(0, 3, 9), [None, Some(1), None, Some(3)]);
    assert_eq!(get_neighbors_less(8, 3, 9), [Some(7), None, Some(5), None]);
}

#[test]
fn neighbors_less_symmetric() {
    for i in 0..12usize {
        for j in 0..12usize {
            let a = get_neighbors_less(i, 4, 12).contains(&Some(j));
            let b = get_neighbors_less(j, 4, 12).contains(&Some(i));
            assert_eq!(a, b);
        }
    }
}

#[test]
fn neighbors_examples() {
    assert_eq!(
        get_neighbors(4, 3, 9),
        [Some(3), Some(6), Some(0), Some(5), Some(8), Some(2), Some(1), Some(7)]
    );
    // The upper diagonals need `idx > width`, so pixel 3 has no upper right one.
    assert_eq!(get_neighbors(3, 3, 9), [None, None, None, Some(4), Some(7), None, Some(0), Some(6)]);
}

#[test]
fn interp_neighbors_examples() {
    assert_eq!(interp_neighbors(4, 3, 9), [Some(4), Some(7), Some(5), Some(8)]);
    assert_eq!(interp_neighbors(8, 3, 9), [Some(8), None, None, None]);
    assert_eq!(interp_neighbors(2, 3, 9), [Some(2), Some(5), None, None]);
}

#[test]
fn bordering_on_examples() {
    let t = Some(true);
    let f = Some(false);
    let raster = vec![t, t, t, t, t, t, t, t, f];
    assert!(bordering_on(&raster, 5, 3, false));
    assert!(bordering_on(&raster, 7, 3, false));
    assert!(!bordering_on(&raster, 4, 3, false));
    assert!(bordering_on(&raster, 4, 3, true));
    let with_gap = vec![t, None, t, t, t, t, t, t, t];
    assert!(bordering_on(&with_gap, 0, 3, false));
    assert!(bordering_on(&with_gap, 4, 3, false));
    assert!(!bordering_on(&with_gap, 8, 3, false));
}

#[test]
fn aggregate_valid_pix_examples() {
    let t = Some(true);
    let f = Some(false);
    let raster = vec![t, t, t, t, t, t, t, t, f];
    assert_eq!(aggregate_valid_pix(&raster, 3, false), vec![5, 7]);
    let none_true = vec![f, f, None, f];
    assert_eq!(aggregate_valid_pix(&none_true, 2, false), Vec::<usize>::new());
    assert_eq!(aggregate_valid_pix(&raster, 3, true).len(), 8);
}

#[test]
fn pixel_at_examples() {
    let pixels: Vec<Option<i32>> = (0..LEN as i32).map(Some).collect();
    assert_eq!(pixel_at(&pixels, 257, &p(1, 1)), Some(258));
    assert_eq!(pixel_at(&pixels, 257, &p(0, 0)), Some(0));
    assert_eq!(pixel_at(&pixels, 257, &p(-1, 0)), None);
    assert_eq!(pixel_at(&pixels, 257, &p(0, 257)), None);
    assert_eq!(pixel_at(&pixels, 257, &p(256, 256)), Some(66_048));
    // Points off the sides of a row have no pixel, though their index is in range.
    assert_eq!(pixel_at(&pixels, 257, &p(257, 0)), None);
    assert_eq!(pixel_at(&pixels, 257, &p(-1, 1)), None);
    assert_eq!(pixel_at(&pixels, 257, &p(0, -1)), None);
}
