use matto::drawing::BresenhamLineIter;
use matto::point::{Point, PointU32};

fn _test_line_bresenham(start: PointU32, end: PointU32, exp_points: Vec<PointU32>) {
    assert_eq!(
        BresenhamLineIter::new(start.clone(), end.clone()).points(),
        exp_points,
        "line from start {:?} to end {:?}",
        start,
        end,
    );

    assert_eq!(
        BresenhamLineIter::new(end.clone(), start.clone()).points(),
        exp_points.iter().cloned().rev().collect::<Vec<_>>(),
        "line from end {:?} to start {:?}",
        end,
        start,
    );
}

#[test]
fn test_bresenham_line_basic() {
    let origin = Point { x: 0, y: 0 };

    _test_line_bresenham(origin.clone(), origin.clone(), vec![origin.clone()]);

    let bis = Point { x: 3, y: 3 };
    let bis_exp_points = vec![
        origin.clone(),
        Point { x: 1, y: 1 },
        Point { x: 2, y: 2 },
        bis.clone(),
    ];

    _test_line_bresenham(origin.clone(), bis.clone(), bis_exp_points);
}

#[test]
fn test_bresenham_line_non_steep() {
    let origin = Point { x: 0, y: 0 };
    let non_steep_pt = Point { x: 3, y: 1 };
    let exp_points = vec![
        origin.clone(),
        Point { x: 1, y: 0 },
        Point { x: 2, y: 1 },
        non_steep_pt.clone(),
    ];

    _test_line_bresenham(origin.clone(), non_steep_pt.clone(), exp_points);
}

#[test]
fn test_bresenham_line_steep() {
    let origin = Point { x: 0, y: 0 };
    let steep_pt = Point { x: 1, y: 3 };
    let exp_points = vec![
        origin.clone(),
        Point { x: 0, y: 1 },
        Point { x: 1, y: 2 },
        steep_pt.clone(),
    ];

    _test_line_bresenham(origin.clone(), steep_pt.clone(), exp_points);
}

#[test]
fn test_bresenham_line_dec() {
    let start = Point { x: 4, y: 0 };
    let end = Point { x: 1, y: 3 };
    let exp_points = vec![
        start.clone(),
        Point { x: 3, y: 1 },
        Point { x: 2, y: 2 },
        end.clone(),
    ];

    _test_line_bresenham(start.clone(), end.clone(), exp_points);
}

#[test]
fn bresenham_next_stops_after_end() {
    let mut it = BresenhamLineIter::new(Point { x: 2, y: 5 }, Point { x: 2, y: 7 });
    assert_eq!(it.next(), Some(Point { x: 2, y: 5 }));
    assert_eq!(it.next(), Some(Point { x: 2, y: 6 }));
    assert_eq!(it.next(), Some(Point { x: 2, y: 7 }));
    assert_eq!(it.next(), None);
    assert_eq!(it.next(), None);
}
