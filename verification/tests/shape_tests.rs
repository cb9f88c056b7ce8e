use viewshed::circle::draw_circle;
use viewshed::line::draw_line;
use viewshed::point::Point;

fn p(x: i32, y: i32) -> Point {
    Point { x, y }
}

#[test]
fn line_along_x() {
    assert_eq!(draw_line(&p(0, 0), &p(3, 1)), vec![p(0, 0), p(1, 0), p(2, 1), p(3, 1)]);
}

#[test]
fn line_single_point() {
    assert_eq!(draw_line(&p(4, -2), &p(4, -2)), vec![p(4, -2)]);
}

#[test]
fn line_along_negative_y() {
    assert_eq!(
        draw_line(&p(0, 0), &p(-2, -4)),
        vec![p(0, 0), p(-1, -1), p(-1, -2), p(-2, -3), p(-2, -4)]
    );
}

#[test]
fn line_diagonal() {
    assert_eq!(draw_line(&p(1, 1), &p(4, 4)), vec![p(1, 1), p(2, 2), p(3, 3), p(4, 4)]);
}

#[test]
fn line_endpoints_and_steps() {
    let ends = [(p(0, 0), p(7, 3)), (p(5, 5), p(-3, 9)), (p(2, -6), p(2, 6)), (p(-4, 1), p(9, -2))];
    for (a, b) in ends.iter() {
        let line = draw_line(a, b);
        assert_eq!(line[0], *a);
        assert_eq!(*line.last().unwrap(), *b);
        let longest = ((b.x - a.x).abs()).max((b.y - a.y).abs());
        assert_eq!(line.len(), longest as usize + 1);
        for w in line.windows(2) {
            assert!((w[1].x - w[0].x).abs() <= 1);
            assert!((w[1].y - w[0].y).abs() <= 1);
            assert!(w[0] != w[1]);
        }
    }
}

#[test]
fn circle_radius_one() {
    let c = draw_circle(&p(10, 10), 1);
    assert_eq!(c.center, p(10, 10));
    assert_eq!(c.radius, 1);
    assert_eq!(
        c.edge,
        vec![p(11, 9), p(11, 10), p(11, 11), p(10, 9), p(10, 11), p(9, 9), p(9, 10), p(9, 11)]
    );
}

#[test]
fn circle_radius_zero() {
    let c = draw_circle(&p(3, 4), 0);
    assert_eq!(c.edge, vec![p(3, 4)]);
}

#[test]
fn circle_is_symmetric_and_on_ring() {
    let c = p(50, 50);
    let r = 9i64;
    let circle = draw_circle(&c, r as u32);
    assert!(!circle.edge.is_empty());
    for q in circle.edge.iter() {
        let dx = (q.x - c.x) as i64;
        let dy = (q.y - c.y) as i64;
        assert!(circle.edge.contains(&Point { x: c.x + dy as i32, y: c.y + dx as i32 }));
        assert!(circle.edge.contains(&Point { x: c.x - dx as i32, y: c.y + dy as i32 }));
        assert!(circle.edge.contains(&Point { x: c.x + dx as i32, y: c.y - dy as i32 }));
        let d2 = dx * dx + dy * dy;
        assert!(d2 <= r * r + 1);
        assert!(d2 >= r * r - 2 * (dx.abs() + dy.abs()));
    }
    for w in circle.edge.windows(2) {
        assert!(w[0] != w[1]);
    }
}

#[test]
fn circle_drawing_order() {
    // Entirely below the x axis: x falls, and in each column y follows the turn.
    let circle = draw_circle(&p(20, 20), 3);
    for w in circle.edge.windows(2) {
        let (a, b) = (w[0], w[1]);
        assert!(b.x < a.x || (b.x == a.x && ((a.x > 0 && a.y < b.y) || (a.x <= 0 && b.y < a.y))));
    }
}
