use discrete_geo::ball::{
    integer_points_inside_circle, integer_points_inside_circle_slow, integer_points_inside_dimond_2d,
    integer_points_inside_dimond_3d, integer_points_inside_l_1_circle, integer_points_inside_l_1_sphere,
    integer_points_inside_l_2_circle, integer_points_inside_l_2_circle_slow,
    integer_points_inside_l_2_sphere, integer_points_inside_l_2_sphere_slow,
    integer_points_inside_l_infinity_circle, integer_points_inside_l_infinity_sphere,
    integer_points_inside_sphere, integer_points_inside_sphere_slow, integer_points_inside_square,
};
use discrete_geo::point::{Point2D, Point3D};

fn sort<T: Ord>(mut items: Vec<T>) -> Vec<T> {
    items.sort();
    items
}

#[test]
#[allow(non_snake_case)]
fn Points_in_sphere(){
    assert_eq!(sort(integer_points_inside_l_2_sphere_slow(Point3D{ x: 0, y: 0, z: 0,},0)),sort(integer_points_inside_l_2_sphere(Point3D{ x: 0, y: 0, z: 0,},0)));
    assert_eq!(sort(integer_points_inside_l_2_sphere_slow(Point3D{ x: 0, y: 0, z: 0,},1)),sort(integer_points_inside_l_2_sphere(Point3D{ x: 0, y: 0, z: 0,},1)));
    assert_eq!(sort(integer_points_inside_l_2_sphere_slow(Point3D{ x: 0, y: 0, z: 0,},10)),sort(integer_points_inside_l_2_sphere(Point3D{ x: 0, y: 0, z: 0,},10)));
    assert_eq!(sort(integer_points_inside_l_2_sphere_slow(Point3D{ x: 0, y: 0, z: 0,},100)),sort(integer_points_inside_l_2_sphere(Point3D{ x: 0, y: 0, z: 0,},100)));
}

#[test]
#[allow(non_snake_case)]
fn Points_in_circle(){
    assert_eq!(sort(integer_points_inside_l_2_circle_slow(Point2D{ x: 0, y: 0,},0)),sort(integer_points_inside_l_2_circle(Point2D{ x: 0, y: 0,},0)));
    assert_eq!(sort(integer_points_inside_l_2_circle_slow(Point2D{ x: 0, y: 0,},1)),sort(integer_points_inside_l_2_circle(Point2D{ x: 0, y: 0,},1)));
    assert_eq!(sort(integer_points_inside_l_2_circle_slow(Point2D{ x: 0, y: 0,},10)),sort(integer_points_inside_l_2_circle(Point2D{ x: 0, y: 0,},10)));
    assert_eq!(sort(integer_points_inside_l_2_circle_slow(Point2D{ x: 0, y: 0,},100)),sort(integer_points_inside_l_2_circle(Point2D{ x: 0, y: 0,},100)));
}

#[test]
fn points_in_circle(){
    assert_eq!(sort(integer_points_inside_circle_slow(Point2D{ x: 0, y: 0,},0)),
               sort(integer_points_inside_circle(Point2D{ x: 0, y: 0,},0)));
    assert_eq!(sort(integer_points_inside_circle_slow(Point2D{ x: 0, y: 0,},1)),
               sort(integer_points_inside_circle(Point2D{ x: 0, y: 0,},1)));
    assert_eq!(sort(integer_points_inside_circle_slow(Point2D{ x: 0, y: 0,},10)),
               sort(integer_points_inside_circle(Point2D{ x: 0, y: 0,},10)));
    assert_eq!(sort(integer_points_inside_circle_slow(Point2D{ x: 0, y: 0,},100)),
               sort(integer_points_inside_circle(Point2D{ x: 0, y: 0,},100)));
}

#[test]
fn taxicab_and_chebyshev_counts() {
    let c = Point2D { x: 3, y: -2 };
    for r in 0..6isize {
        let diamond = sort(integer_points_inside_dimond_2d(c, r));
        assert_eq!(diamond.len() as isize, 2 * r * r + 2 * r + 1);
        assert!(diamond.iter().all(|p| (p.x - c.x).abs() + (p.y - c.y).abs() <= r));
        assert_eq!(sort(integer_points_inside_l_1_circle(c, r)), diamond);
        let square = sort(integer_points_inside_square(c, r));
        assert_eq!(square.len() as isize, (2 * r + 1) * (2 * r + 1));
        assert_eq!(sort(integer_points_inside_l_infinity_circle(c, r)), square);
    }
}

#[test]
fn octahedron_and_cube_counts() {
    let c = Point3D { x: -1, y: 4, z: 2 };
    for r in 0..5isize {
        let octahedron = sort(integer_points_inside_dimond_3d(c, r));
        assert_eq!(octahedron.len() as isize, (2 * r + 1) * (2 * r * r + 2 * r + 3) / 3);
        assert!(octahedron.iter().all(|p| (p.x - c.x).abs() + (p.y - c.y).abs() + (p.z - c.z).abs() <= r));
        assert_eq!(sort(integer_points_inside_l_1_sphere(c, r)), octahedron);
        let cube = sort(integer_points_inside_l_infinity_sphere(c, r));
        assert_eq!(cube.len() as isize, (2 * r + 1) * (2 * r + 1) * (2 * r + 1));
    }
}

#[test]
fn disk_off_centre_matches_oracle() {
    let c = Point2D { x: -7, y: 5 };
    for r in [0isize, 1, 2, 3, 5, 7, 13, 25] {
        let fast = sort(integer_points_inside_circle(c, r));
        assert_eq!(fast, sort(integer_points_inside_circle_slow(c, r)));
        assert_eq!(fast, sort(integer_points_inside_l_2_circle(c, r)));
    }
    assert_eq!(integer_points_inside_circle(Point2D { x: 0, y: 0 }, 1).len(), 5);
    assert_eq!(integer_points_inside_circle(Point2D { x: 0, y: 0 }, 5).len(), 81);
}

#[test]
fn ball_off_centre_matches_oracle() {
    let c = Point3D { x: 2, y: -3, z: 9 };
    for r in [0isize, 1, 2, 3, 4, 7, 12] {
        let fast = sort(integer_points_inside_sphere(c, r));
        assert_eq!(fast, sort(integer_points_inside_sphere_slow(c, r)));
    }
    assert_eq!(integer_points_inside_sphere(Point3D { x: 0, y: 0, z: 0 }, 1).len(), 7);
    assert_eq!(integer_points_inside_sphere(Point3D { x: 0, y: 0, z: 0 }, 2).len(), 33);
}
