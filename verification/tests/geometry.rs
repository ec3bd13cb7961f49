use autograder::point::{affine_transformation, find_circle, Point, Transformation};

fn apply(t: &Transformation, p: Point) -> Point {
    t.apply(p)
}

#[test]
fn circle_center_computation() {
    let x = Point { x: 4, y: 11 };
    let y = Point { x: 5, y: 12 };
    let z = Point { x: 11, y: 12 };
    let c = Point { x: 8, y: 8 };

    let res = find_circle(x, y, z).expect("could not compute center");
    assert!(c.distance(res.0) < 2);
    assert!(5 == res.1);
}

#[test]
fn circle_center_collinear() {
    let x = Point { x: 1, y: 3 };
    let y = Point { x: 1001, y: 2003 };
    let z = Point { x: 2001, y: 4003 };

    let res = find_circle(x, y, z);
    assert!(res.is_none())
}

#[test]
fn interpolate_affine_trafo() {
    // the map p -> (-3 x + 2 y + 2000, -7 x + 9 y + 4000), applied by hand
    let lin = |p: Point| -> Point {
        let x = -3 * (p.x as i64) + 2 * (p.y as i64) + 2000;
        let y = -7 * (p.x as i64) + 9 * (p.y as i64) + 4000;
        Point { x: x as u32, y: y as u32 }
    };

    let origs = [
        Point { x: 1, y: 2 },
        Point { x: 18, y: 19 },
        Point { x: 11, y: 11 },
    ];
    let rngs = [lin(origs[0]), lin(origs[1]), lin(origs[2])];

    let trafo = affine_transformation(origs[0], origs[1], origs[2], rngs[0], rngs[1], rngs[2])
        .expect("computation failed!");

    for i in 0..3 {
        let interpolated = apply(&trafo, origs[i]);
        assert!(rngs[i].distance(interpolated) < 2);
    }
}

#[test]
fn affine_recovers_corners_exactly() {
    let a1 = Point { x: 60, y: 60 };
    let a2 = Point { x: 540, y: 60 };
    let a3 = Point { x: 540, y: 740 };
    let b1 = Point { x: 63, y: 58 };
    let b2 = Point { x: 543, y: 61 };
    let b3 = Point { x: 538, y: 741 };
    let t = affine_transformation(a1, a2, a3, b1, b2, b3).expect("solvable");
    assert_eq!(t.apply(a1), b1);
    assert_eq!(t.apply(a2), b2);
    assert_eq!(t.apply(a3), b3);
}

#[test]
fn affine_rejects_collinear_source() {
    let a1 = Point { x: 0, y: 0 };
    let a2 = Point { x: 10, y: 10 };
    let a3 = Point { x: 20, y: 20 };
    let b = Point { x: 5, y: 7 };
    assert!(affine_transformation(a1, a2, a3, b, b, b).is_none());
}

#[test]
fn distance_rounds_to_nearest() {
    let a = Point { x: 0, y: 0 };
    assert_eq!(a.distance(Point { x: 3, y: 4 }), 5);
    assert_eq!(a.distance(Point { x: 1, y: 1 }), 1); // sqrt(2) = 1.41
    assert_eq!(a.distance(Point { x: 2, y: 2 }), 3); // sqrt(8) = 2.83
    assert_eq!(a.distance(Point { x: 0, y: 0 }), 0);
}
