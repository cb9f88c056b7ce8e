use viewshed::point::{Circle, Point};
use viewshed::grid::LEN;
use viewshed::line::draw_line;
use viewshed::sight::{check_raster, line_visibility, record_line, ResultRaster, Slope};

fn p(x: i32, y: i32) -> Point {
    Point { x, y }
}

#[test]
fn visibility_running_maximum() {
    let s = vec![
        Slope::NegInfinity,
        Slope::Rank(5),
        Slope::Rank(3),
        Slope::NoData,
        Slope::Rank(7),
        Slope::Unordered,
        Slope::NoData,
        Slope::Rank(7),
    ];
    assert_eq!(line_visibility(&s), vec![true, true, false, false, true, false, false, true]);
}

#[test]
fn visibility_no_data_first() {
    let s = vec![Slope::NoData, Slope::NegInfinity, Slope::NoData, Slope::Rank(-4)];
    assert_eq!(line_visibility(&s), vec![true, true, true, true]);
}

#[test]
fn visibility_empty() {
    assert_eq!(line_visibility(&Vec::new()), Vec::<bool>::new());
}

#[test]
fn visible_slopes_rise() {
    let s = vec![Slope::NegInfinity, Slope::Rank(2), Slope::Rank(1), Slope::Rank(4), Slope::Rank(3), Slope::Rank(9)];
    let v = line_visibility(&s);
    let mut last = i64::MIN;
    for (sample, vis) in s.iter().zip(v.iter()) {
        if let (Slope::Rank(r), true) = (sample, vis) {
            assert!(*r >= last);
            last = *r;
        }
    }
    assert_eq!(v, vec![true, true, false, true, false, true]);
}

#[test]
fn record_line_marks_pixels() {
    let raster = vec![0u8; 9];
    let mut result: Vec<Option<bool>> = vec![None; 9];
    let line = vec![p(0, 0), p(1, 0), p(2, 0), p(3, 0)];
    record_line(&mut result, &line, &vec![true, false, true, true], &raster, 3);
    assert_eq!(result, vec![Some(true), Some(false), Some(true), None, None, None, None, None, None]);
    // A later line overwrites what an earlier one marked.
    record_line(&mut result, &vec![p(1, 0), p(1, 1)], &vec![true, false], &raster, 3);
    assert_eq!(result[1], Some(true));
    assert_eq!(result[4], Some(false));
}

#[test]
fn record_line_uses_shorter_length() {
    let raster = vec![0u8; 4];
    let mut result: Vec<Option<bool>> = vec![None; 4];
    record_line(&mut result, &vec![p(0, 0), p(1, 0)], &vec![false], &raster, 2);
    assert_eq!(result, vec![Some(false), None, None, None]);
}

fn sample_result() -> ResultRaster<f32> {
    let circle = Circle { edge: vec![p(1, 0)], center: p(0, 0), radius: 1 };
    ResultRaster::new(
        vec![Some(true), Some(false), Some(true), None, Some(true), Some(false)],
        3,
        0.5,
        1.5,
        circle,
    )
}

#[test]
fn result_raster_new_keeps_parts() {
    let r = sample_result();
    assert_eq!(r.width, 3);
    assert_eq!(r.x0, 0.5);
    assert_eq!(r.y1, 1.5);
    assert_eq!(r.pixels.len(), 6);
    assert_eq!(r.circle.center, p(0, 0));
}

#[test]
fn result_value_at_reads_the_point() {
    let r = sample_result();
    assert_eq!(r.value_at(&p(1, 0)), Some(false));
    assert_eq!(r.value_at(&p(0, 1)), None);
    assert_eq!(r.value_at(&p(1, 1)), Some(true));
    assert_eq!(r.value_at(&p(2, 1)), Some(false));
    // Points off the raster have no result.
    assert_eq!(r.value_at(&p(-1, 0)), None);
    assert_eq!(r.value_at(&p(0, -1)), None);
    assert_eq!(r.value_at(&p(3, 0)), None);
}

#[test]
fn check_result_counts_every_decided_pixel() {
    let r = sample_result();
    assert_eq!(r.check_result(), (3, 2, 5));
    let gap = ResultRaster::new(vec![Some(true), None, Some(false)], 3, 0.0f32, 0.0f32, Circle { edge: vec![], center: p(0, 0), radius: 0 });
    assert_eq!(gap.check_result(), (1, 1, 2));
    let all = ResultRaster::new(vec![Some(false); 4], 2, 0.0f32, 0.0f32, Circle { edge: vec![], center: p(0, 0), radius: 0 });
    assert_eq!(all.check_result(), (0, 4, 4));
    let none = ResultRaster::new(vec![None; 3], 3, 0.0f32, 0.0f32, Circle { edge: vec![], center: p(0, 0), radius: 0 });
    assert_eq!(none.check_result(), (0, 0, 0));
}

#[test]
fn grey_levels_over_whole_rows() {
    let r = sample_result();
    assert_eq!(r.grey_levels(), vec![255, 0, 255, 0, 255, 0]);
    let partial = ResultRaster::new(vec![Some(true), Some(true), Some(false), Some(true), Some(true)], 2, 0.0f32, 0.0f32, Circle { edge: vec![], center: p(0, 0), radius: 0 });
    assert_eq!(partial.grey_levels(), vec![255, 255, 0, 255]);
}

fn flat(n: usize) -> Vec<Slope> {
    let mut s = vec![Slope::Rank(0); n];
    s[0] = Slope::NegInfinity;
    s
}

#[test]
fn check_raster_last_line_decides() {
    let raster = vec![0u8; 9];
    let origin = p(0, 0);
    let edge = vec![p(2, 0), p(2, 2), p(0, 2)];
    let circle = Circle { edge: edge.clone(), center: origin, radius: 2 };
    // The first line sees (1, 0) and (2, 0); the second sees only (1, 1); the third
    // sees everything.
    let samples = vec![
        flat(3),
        vec![Slope::NegInfinity, Slope::Rank(5), Slope::Rank(1)],
        flat(3),
    ];
    let r = check_raster(&raster, 3, 1.0f32, 2.0f32, circle, &origin, &samples);
    assert_eq!(r.pixels.len(), LEN);
    assert_eq!(r.width, 3);
    assert_eq!(r.x0, 1.0);
    assert_eq!(r.circle.edge, edge);
    assert_eq!(&r.pixels[0..9], &[Some(true), Some(true), Some(true), Some(true), Some(true), None, Some(true), None, Some(false)]);
    assert!(r.pixels[9..].iter().all(|v| v.is_none()));
    assert_eq!(draw_line(&origin, &p(2, 2)).len(), 3);
}
