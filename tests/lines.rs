use discrete_geo::line2d::{
    integer_cells_on_line_segment_2d, integer_cells_on_line_segment_2d_rational_scale,
    integer_points_on_line, integer_points_on_line_segment_2d, l_infinity_line,
    l_infinity_line_rational,
};
use discrete_geo::line3d::{integer_points_on_line_3D, integer_points_on_line_segment_3d};
use discrete_geo::point::{Point2D, Point3D};
use discrete_geo::rational::Rational;

fn sort<T: Ord>(mut items: Vec<T>) -> Vec<T> {
    items.sort();
    items
}

#[test]
fn line_2d_endpoints_order(){
    assert_eq!(sort(integer_points_on_line_segment_2d(Point2D{ x: -1, y: 0,},Point2D{ x: 1, y: 0,})),
               sort(integer_points_on_line_segment_2d(Point2D{ x: 1, y: 0,},Point2D{ x: -1, y: 0,})));
    assert_eq!(sort(integer_points_on_line_segment_2d(Point2D{ x: 0, y: -1,},Point2D{ x: 0, y: 1,})),
               sort(integer_points_on_line_segment_2d(Point2D{ x: 0, y: 1,},Point2D{ x: 0, y: -1,})));
    assert_eq!(sort(integer_points_on_line_segment_2d(Point2D{ x: 1, y: 2,},Point2D{ x: 5, y: 10,})),
               sort(integer_points_on_line_segment_2d(Point2D{ x: 5, y: 10,},Point2D{ x: 1, y: 2,})));
    assert_eq!(sort(integer_points_on_line_segment_2d(Point2D{ x: 1, y: 2,},Point2D{ x: 5, y: -6,})),
               sort(integer_points_on_line_segment_2d(Point2D{ x: 5, y: -6,},Point2D{ x: 1, y: 2,})));
}

#[test]
fn line_2d_correct_points(){
    assert_eq!(sort(integer_points_on_line_segment_2d(Point2D{ x: -1, y: 0,},Point2D{ x: 1, y: 0,})),
               sort(vec![Point2D{ x: 1, y: 0,},Point2D{ x: 0, y: 0,},Point2D{ x: -1, y: 0,}]));
    assert_eq!(sort(integer_points_on_line_segment_2d(Point2D{ x: -1, y: 1,},Point2D{ x: 1, y: 1,})),
               sort(vec![Point2D{ x: 1, y: 1,},Point2D{ x: 0, y: 1,},Point2D{ x: -1, y: 1,}]));
    assert_eq!(sort(integer_points_on_line_segment_2d(Point2D{ x: 1, y: 2,},Point2D{ x: 5, y: 10,})),
               sort(vec![Point2D{ x: 1, y: 2,},Point2D{ x: 2, y: 4,},
                    Point2D{ x: 3, y: 6,},Point2D{ x: 4, y: 8,},Point2D{ x: 5, y: 10,}]));
    assert_eq!(sort(integer_points_on_line_segment_2d(Point2D{ x: 1, y: 2,},Point2D{ x: 5, y: -6,})),
               sort(vec![Point2D{ x: 1, y: 2,},Point2D{ x: 2, y: 0,},
                    Point2D{ x: 3, y: -2,},Point2D{ x: 4, y: -4,},Point2D{ x: 5, y: -6,}]));
    assert_eq!(sort(integer_points_on_line_segment_2d(Point2D{ x: 0, y: 0,},Point2D{ x: 3, y: 5,})),
               sort(vec![Point2D{ x: 0, y: 0,},Point2D{ x: 3, y: 5,}]));
    assert_eq!(sort(integer_points_on_line_segment_2d(Point2D{ x: 0, y: 0,},Point2D{ x: 4, y: 2,})),
               sort(vec![Point2D{ x: 0, y: 0,},Point2D{ x: 2, y: 1,},Point2D{ x: 4, y: 2,}]));
    assert_eq!(sort(integer_points_on_line_segment_2d(Point2D{ x: -3, y: 4,},Point2D{ x: -1, y: 6,})),
               sort(vec![Point2D{ x: -3, y: 4,},Point2D{ x: -2, y: 5,},Point2D{ x: -1, y: 6,}]));
}

#[test]
fn l_infinity_line_2d_order(){
    assert_eq!(sort(integer_cells_on_line_segment_2d(Point2D{ x: -1, y: 0,},Point2D{ x: 1, y: 0,})),
               sort(integer_cells_on_line_segment_2d(Point2D{ x: 1, y: 0,},Point2D{ x: -1, y: 0,})));
    assert_eq!(sort(integer_cells_on_line_segment_2d(Point2D{ x: 0, y: -1,},Point2D{ x: 0, y: 1,})),
               sort(integer_cells_on_line_segment_2d(Point2D{ x: 0, y: 1,},Point2D{ x: 0, y: -1,})));
    assert_eq!(sort(integer_cells_on_line_segment_2d(Point2D{ x: 0, y: 0,},Point2D{ x: 7, y: 7,})),
               sort(integer_cells_on_line_segment_2d(Point2D{ x: 7, y: 7,},Point2D{ x: 0, y: 0,})));
    assert_eq!(sort(integer_cells_on_line_segment_2d(Point2D{ x: -1, y: -2,},Point2D{ x: 4, y: 3,})),
               sort(integer_cells_on_line_segment_2d(Point2D{ x: 4, y: 3,},Point2D{ x: -1, y: -2,})));
    assert_eq!(sort(integer_cells_on_line_segment_2d(Point2D{ x: 1, y: 2,},Point2D{ x: 5, y: 10,})),
               sort(integer_cells_on_line_segment_2d(Point2D{ x: 5, y: 10,},Point2D{ x: 1, y: 2,})));
    assert_eq!(sort(integer_cells_on_line_segment_2d(Point2D{ x: 1, y: 2,},Point2D{ x: 5, y: -6,})),
               sort(integer_cells_on_line_segment_2d(Point2D{ x: 5, y: -6,},Point2D{ x: 1, y: 2,})));
}

#[test]
fn l_infinity_line_2d_points(){
    assert_eq!(sort(integer_cells_on_line_segment_2d(Point2D{ x: -1, y: 0,},Point2D{ x: 1, y: 0,})),
               sort(vec![Point2D{ x: -1, y: 0,},Point2D{ x: 0, y: 0,},Point2D{ x: 1, y: 0,}]));
    assert_eq!(sort(integer_cells_on_line_segment_2d(Point2D{ x: 0, y: 1,},Point2D{ x: 1, y: 0,})),
               sort(vec![Point2D{ x: 0, y: 1,},Point2D{ x: 1, y: 0,}]));
    assert_eq!(sort(integer_cells_on_line_segment_2d(Point2D{ x: 0, y: 0,},Point2D{ x: 2, y: 1,})),
               sort(vec![Point2D{ x: 0, y: 0,},Point2D{ x: 1, y: 0,},
                    Point2D{ x: 1, y: 1,},Point2D{ x: 2, y: 1,}]));
    assert_eq!(sort(integer_cells_on_line_segment_2d(Point2D{ x: -2, y: 0,},Point2D{ x: 1, y: 4,})),
               sort(vec![Point2D{ x: -2, y: 0,},Point2D{ x: -2, y: 1,},
                    Point2D{ x: -1, y: 1,},Point2D{ x: -1, y: 2,},
                    Point2D{ x: 0, y: 2,},Point2D{ x: 0, y: 3,},
                    Point2D{ x: 1, y: 3,},Point2D{ x: 1, y: 4,}]));
}

#[test]
fn l_infinity_line_rational_2d_order(){
    assert_eq!(sort(integer_cells_on_line_segment_2d_rational_scale(Point2D{ x: -1, y: 0,},Point2D{ x: 1, y: 0,},Rational::new_rational(1,4))),
               sort(integer_cells_on_line_segment_2d_rational_scale(Point2D{ x: 1, y: 0,},Point2D{ x: -1, y: 0,},Rational::new_rational(1,4))));
    assert_eq!(sort(integer_cells_on_line_segment_2d_rational_scale(Point2D{ x: 0, y: -1,},Point2D{ x: 0, y: 1,},Rational::new_rational(1,4))),
               sort(integer_cells_on_line_segment_2d_rational_scale(Point2D{ x: 0, y: 1,},Point2D{ x: 0, y: -1,},Rational::new_rational(1,4))));
    assert_eq!(sort(integer_cells_on_line_segment_2d_rational_scale(Point2D{ x: 0, y: 0,},Point2D{ x: 7, y: 7,},Rational::new_rational(1,4))),
               sort(integer_cells_on_line_segment_2d_rational_scale(Point2D{ x: 7, y: 7,},Point2D{ x: 0, y: 0,},Rational::new_rational(1,4))));
    assert_eq!(sort(integer_cells_on_line_segment_2d_rational_scale(Point2D{ x: -1, y: -2,},Point2D{ x: 4, y: 3,},Rational::new_rational(1,4))),
               sort(integer_cells_on_line_segment_2d_rational_scale(Point2D{ x: 4, y: 3,},Point2D{ x: -1, y: -2,},Rational::new_rational(1,4))));
    assert_eq!(sort(integer_cells_on_line_segment_2d_rational_scale(Point2D{ x: 1, y: 2,},Point2D{ x: 5, y: 10,},Rational::new_rational(1,4))),
               sort(integer_cells_on_line_segment_2d_rational_scale(Point2D{ x: 5, y: 10,},Point2D{ x: 1, y: 2,},Rational::new_rational(1,4))));
    assert_eq!(sort(integer_cells_on_line_segment_2d_rational_scale(Point2D{ x: 1, y: 2,},Point2D{ x: 5, y: -6,},Rational::new_rational(1,4))),
               sort(integer_cells_on_line_segment_2d_rational_scale(Point2D{ x: 5, y: -6,},Point2D{ x: 1, y: 2,},Rational::new_rational(1,4))));
    assert_eq!(sort(integer_cells_on_line_segment_2d_rational_scale(Point2D{ x: 1, y: 2,},Point2D{ x: 5, y: 10,},Rational::new_rational(1,6))),
               sort(integer_cells_on_line_segment_2d_rational_scale(Point2D{ x: 5, y: 10,},Point2D{ x: 1, y: 2,},Rational::new_rational(1,6))));
    assert_eq!(sort(integer_cells_on_line_segment_2d_rational_scale(Point2D{ x: 1, y: 2,},Point2D{ x: 5, y: -6,},Rational::new_rational(1,6))),
               sort(integer_cells_on_line_segment_2d_rational_scale(Point2D{ x: 5, y: -6,},Point2D{ x: 1, y: 2,},Rational::new_rational(1,6))));
    assert_eq!(sort(integer_cells_on_line_segment_2d_rational_scale(Point2D{ x: 1, y: 2,},Point2D{ x: 5, y: 10,},Rational::new_rational(2,6))),
               sort(integer_cells_on_line_segment_2d_rational_scale(Point2D{ x: 5, y: 10,},Point2D{ x: 1, y: 2,},Rational::new_rational(2,6))));
    assert_eq!(sort(integer_cells_on_line_segment_2d_rational_scale(Point2D{ x: 1, y: 2,},Point2D{ x: 5, y: -6,},Rational::new_rational(2,6))),
               sort(integer_cells_on_line_segment_2d_rational_scale(Point2D{ x: 5, y: -6,},Point2D{ x: 1, y: 2,},Rational::new_rational(2,6))));
}

#[test]
fn l_infinity_line_rational_2d_points(){
    assert_ne!(sort(integer_cells_on_line_segment_2d_rational_scale(Point2D{ x: 0, y: 0,},Point2D{ x: 2, y: 1,},Rational::new_rational(1,4))),
               sort(vec![Point2D{ x: 0, y: 0,},Point2D{ x: 1, y: 0,},Point2D{ x: 1, y: 1,},Point2D{ x: 2, y: 1,}]));

    assert_eq!(sort(integer_cells_on_line_segment_2d_rational_scale(Point2D{ x: -1, y: 0,},Point2D{ x: 1, y: 0,},Rational::new_rational(1,4))),
               sort(vec![Point2D{ x: -1, y: 0,},Point2D{ x: 0, y: 0,},Point2D{ x: 1, y: 0,}]));
    assert_eq!(sort(integer_cells_on_line_segment_2d_rational_scale(Point2D{ x: 0, y: 0,},Point2D{ x: 2, y: 1,},Rational::new_rational(1,4))),
               sort(vec![Point2D{ x: 0, y: 0,},Point2D{ x: 2, y: 1,}]));
    assert_eq!(sort(integer_cells_on_line_segment_2d_rational_scale(Point2D{ x: 0, y: 0,},Point2D{ x: 2, y: 1,},Rational::new_rational(1,3))),
               sort(vec![Point2D{ x: 0, y: 0,},Point2D{ x: 2, y: 1,}]));
    assert_eq!(sort(integer_cells_on_line_segment_2d_rational_scale(Point2D{ x: 0, y: 0,},Point2D{ x: 2, y: 1,},Rational::new_rational(13,33))),
               sort(vec![Point2D{ x: 0, y: 0,},Point2D{ x: 1, y: 0,},Point2D{ x: 1, y: 1,},Point2D{ x: 2, y: 1,}]));
}

#[test]
fn line_3d_endpoints_order(){
    assert_eq!(sort(integer_points_on_line_segment_3d(Point3D{ x: -1, y: 0, z: 0,},Point3D{ x: 1, y: 0, z: 0,})),
               sort(integer_points_on_line_segment_3d(Point3D{ x: 1, y: 0, z: 0,},Point3D{ x: -1, y: 0, z: 0,})));
    assert_eq!(sort(integer_points_on_line_segment_3d(Point3D{ x: 0, y: 1, z: 0,},Point3D{ x: 0, y: -1, z: 0,})),
               sort(integer_points_on_line_segment_3d(Point3D{ x: 0, y: -1, z: 0,},Point3D{ x: 0, y: 1, z: 0,})));
    assert_eq!(sort(integer_points_on_line_segment_3d(Point3D{ x: 0, y: 0, z: 1,},Point3D{ x: 0, y: 0, z: -1,})),
               sort(integer_points_on_line_segment_3d(Point3D{ x: 0, y: 0, z: -1,},Point3D{ x: 0, y: 0, z: 1,})));
    assert_eq!(sort(integer_points_on_line_segment_3d(Point3D{ x: 0, y: 0, z: 0,},Point3D{ x: 3, y: 6, z: 9,})),
               sort(integer_points_on_line_segment_3d(Point3D{ x: 3, y: 6, z: 9,},Point3D{ x: 0, y: 0, z: 0,})));
    assert_eq!(sort(integer_points_on_line_segment_3d(Point3D{ x: 0, y: 0, z: 0,},Point3D{ x: 3, y: 6, z: 9,})),
               sort(integer_points_on_line_segment_3d(Point3D{ x: 3, y: 6, z: 9,},Point3D{ x: 0, y: 0, z: 0,})));
    assert_eq!(sort(integer_points_on_line_segment_3d(Point3D{ x: -1, y: -2, z: -3,},Point3D{ x: 4, y: 23, z: 2,})),
               sort(integer_points_on_line_segment_3d(Point3D{ x: 4, y: 23, z: 2,},Point3D{ x: -1, y: -2, z: -3,})));
    assert_eq!(sort(integer_points_on_line_segment_3d(Point3D{ x: 3, y: 6, z: 0,},Point3D{ x: 5, y: -8, z: 14,})),
               sort(integer_points_on_line_segment_3d(Point3D{ x: 5, y: -8, z: 14,},Point3D{ x: 3, y: 6, z: 0,})));
}

#[test]
fn line_3d_correct_points(){
    assert_eq!(sort(integer_points_on_line_segment_3d(Point3D{ x: -1, y: 0, z: 0,},Point3D{ x: 1, y: 0, z: 0,})),
               sort(vec![Point3D{ x: -1, y: 0, z: 0,},Point3D{ x: 0, y: 0, z: 0,},Point3D{ x: 1, y: 0, z: 0,}]));
    assert_eq!(sort(integer_points_on_line_segment_3d(Point3D{ x: 3, y: 6, z: 9,},Point3D{ x: 0, y: 0, z: 0,})),
               sort(vec![Point3D{ x: 3, y: 6, z: 9,},Point3D{ x: 2, y: 4, z: 6,},Point3D{ x: 1, y: 2, z: 3,},Point3D{ x: 0, y: 0, z: 0,}]));
    assert_eq!(sort(integer_points_on_line_segment_3d(Point3D{ x: -1, y: -2, z: -3,},Point3D{ x: 4, y: 23, z: 2,})),
               sort(vec![Point3D{ x: -1, y: -2, z: -3,},Point3D{ x: 0, y: 3, z: -2,},Point3D{ x: 1, y: 8, z: -1,},Point3D{ x: 2, y: 13, z: 0,},
                    Point3D{ x: 3, y: 18, z: 1,},Point3D{ x: 4, y: 23, z: 2,}]));
}

#[test]
fn kitty_corner_steps_diagonally() {
    // the line from (0,0) to (2,2) crosses cell corners at (0.5,0.5) and (1.5,1.5)
    assert_eq!(sort(integer_cells_on_line_segment_2d(Point2D { x: 0, y: 0 }, Point2D { x: 2, y: 2 })),
               sort(vec![Point2D { x: 0, y: 0 }, Point2D { x: 1, y: 1 }, Point2D { x: 2, y: 2 }]));
    // (0,0) to (1,3): height 1.5 at x = 0.5 is a corner
    assert_eq!(sort(integer_cells_on_line_segment_2d(Point2D { x: 0, y: 0 }, Point2D { x: 1, y: 3 })),
               sort(vec![Point2D { x: 0, y: 0 }, Point2D { x: 0, y: 1 }, Point2D { x: 1, y: 2 }, Point2D { x: 1, y: 3 }]));
    // and downhill
    assert_eq!(sort(integer_cells_on_line_segment_2d(Point2D { x: 0, y: 0 }, Point2D { x: 1, y: -3 })),
               sort(vec![Point2D { x: 0, y: 0 }, Point2D { x: 0, y: -1 }, Point2D { x: 1, y: -2 }, Point2D { x: 1, y: -3 }]));
}

#[test]
fn zero_length_segments_give_one_point() {
    let p = Point2D { x: 4, y: -9 };
    assert_eq!(integer_points_on_line_segment_2d(p, p), vec![p]);
    assert_eq!(integer_cells_on_line_segment_2d(p, p), vec![p]);
    assert_eq!(integer_cells_on_line_segment_2d_rational_scale(p, p, Rational::new_rational(1, 5)), vec![p]);
    let q = Point3D { x: 1, y: 2, z: 3 };
    assert_eq!(integer_points_on_line_segment_3d(q, q), vec![q]);
}

#[test]
fn spec_scenarios_for_plane_segments() {
    assert_eq!(sort(integer_points_on_line_segment_2d(Point2D { x: -1, y: 0 }, Point2D { x: 1, y: 0 })),
               vec![Point2D { x: -1, y: 0 }, Point2D { x: 0, y: 0 }, Point2D { x: 1, y: 0 }]);
    assert_eq!(integer_points_on_line_segment_2d(Point2D { x: 1, y: 2 }, Point2D { x: 5, y: 10 }),
               vec![Point2D { x: 1, y: 2 }, Point2D { x: 2, y: 4 }, Point2D { x: 3, y: 6 }, Point2D { x: 4, y: 8 }, Point2D { x: 5, y: 10 }]);
    assert_eq!(integer_points_on_line_segment_2d(Point2D { x: 0, y: 0 }, Point2D { x: 3, y: 5 }),
               vec![Point2D { x: 0, y: 0 }, Point2D { x: 3, y: 5 }]);
    let four = sort(vec![Point2D { x: 0, y: 0 }, Point2D { x: 1, y: 0 }, Point2D { x: 1, y: 1 }, Point2D { x: 2, y: 1 }]);
    assert_eq!(sort(integer_cells_on_line_segment_2d(Point2D { x: 0, y: 0 }, Point2D { x: 2, y: 1 })), four);
    assert_eq!(sort(integer_cells_on_line_segment_2d_rational_scale(Point2D { x: 0, y: 0 }, Point2D { x: 2, y: 1 }, Rational::new_rational(1, 4))),
               vec![Point2D { x: 0, y: 0 }, Point2D { x: 2, y: 1 }]);
    assert_eq!(sort(integer_cells_on_line_segment_2d_rational_scale(Point2D { x: 0, y: 0 }, Point2D { x: 2, y: 1 }, Rational::new_rational(13, 33))), four);
}

#[test]
fn radius_policy_boundaries() {
    let a = Point2D { x: -3, y: 1 };
    let b = Point2D { x: 4, y: 6 };
    let thin = sort(integer_points_on_line_segment_2d(a, b));
    let full = sort(integer_cells_on_line_segment_2d(a, b));
    assert_eq!(sort(integer_cells_on_line_segment_2d_rational_scale(a, b, Rational::new_rational(0, 1))), thin);
    assert_eq!(sort(integer_cells_on_line_segment_2d_rational_scale(a, b, Rational::new_rational_from_integers(-1, 3))), thin);
    assert_eq!(sort(integer_cells_on_line_segment_2d_rational_scale(a, b, Rational::new_rational(1, 2))), full);
    assert_eq!(sort(integer_cells_on_line_segment_2d_rational_scale(a, b, Rational::new_rational(3, 2))), full);
    assert_eq!(sort(l_infinity_line(a, b)), full);
    assert_eq!(sort(integer_points_on_line(a, b)), thin);
    assert_eq!(sort(l_infinity_line_rational(a, b, Rational::new_rational(1, 3))),
               sort(integer_cells_on_line_segment_2d_rational_scale(a, b, Rational::new_rational(1, 3))));
}

#[test]
fn wider_bands_hold_more_cells() {
    let segments = [(Point2D { x: 0, y: 0 }, Point2D { x: 7, y: 3 }), (Point2D { x: -2, y: 5 }, Point2D { x: 3, y: -4 }), (Point2D { x: 1, y: 1 }, Point2D { x: 9, y: 2 })];
    let radii = [(1usize, 10usize), (1, 5), (1, 4), (3, 10), (2, 5), (1, 2)];
    for (a, b) in segments {
        let thin = integer_points_on_line_segment_2d(a, b);
        let mut previous = thin.clone();
        for (n, d) in radii {
            let band = integer_cells_on_line_segment_2d_rational_scale(a, b, Rational::new_rational(n, d));
            assert!(previous.iter().all(|p| band.contains(p)));
            previous = band;
        }
        assert_eq!(sort(previous), sort(integer_cells_on_line_segment_2d(a, b)));
        assert!(thin.iter().all(|p| (p.x - a.x) * (b.y - a.y) == (p.y - a.y) * (b.x - a.x)));
    }
}

#[test]
fn lattice_points_in_space_are_on_the_segment() {
    let a = Point3D { x: -4, y: 7, z: 1 };
    let b = Point3D { x: 8, y: -5, z: 10 };
    let points = integer_points_on_line_segment_3d(a, b);
    assert_eq!(sort(points.clone()), sort(vec![Point3D { x: -4, y: 7, z: 1 }, Point3D { x: 0, y: 3, z: 4 }, Point3D { x: 4, y: -1, z: 7 }, Point3D { x: 8, y: -5, z: 10 }]));
    assert_eq!(sort(integer_points_on_line_3D(b, a)), sort(points));
    assert_eq!(sort(integer_points_on_line_segment_3d(Point3D { x: 2, y: 0, z: 0 }, Point3D { x: 2, y: 4, z: 6 })),
               sort(vec![Point3D { x: 2, y: 0, z: 0 }, Point3D { x: 2, y: 2, z: 3 }, Point3D { x: 2, y: 4, z: 6 }]));
}
