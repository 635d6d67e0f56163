//! Rasterising segments in space.
use vstd::prelude::*;
use vstd::arithmetic::div_mod::*;
use vstd::arithmetic::mul::*;
use crate::ball::{lemma_push_contains, lemma_push_no_duplicates};
use crate::gcd::{gcd, gcd_spec, lemma_gcd_divides, lemma_gcd_greatest, lemma_gcd_scale};
use crate::ball::push_layer;
use crate::line2d::{
    cell_touched, integer_cells_on_line_segment_2d, integer_points_on_line_segment_2d,
    lemma_on_segment_symmetric, on_segment, segment_fits,
};
use crate::sweep::{push_scaled_cells, scaled_cell_touched};
use crate::point::{Point2D, Point3D, max, min};
use crate::rational::abs;

verus! {

pub open spec fn xy(p: Point3D) -> Point2D {
    Point2D { x: p.x, y: p.y }
}

pub open spec fn xz(p: Point3D) -> Point2D {
    Point2D { x: p.x, y: p.z }
}

pub open spec fn yz(p: Point3D) -> Point2D {
    Point2D { x: p.y, y: p.z }
}

/// Every plane projection of the segment satisfies `segment_fits`.
pub open spec fn segment_fits_3d(p1: Point3D, p2: Point3D) -> bool {
    &&& segment_fits(xy(p1), xy(p2))
    &&& segment_fits(xz(p1), xz(p2))
    &&& segment_fits(yz(p1), yz(p2))
}

/// `c` lies on the closed segment from `p1` to `p2`: each of its three plane
/// projections lies on the projected segment.
pub open spec fn on_segment_3d(p1: Point3D, p2: Point3D, c: Point3D) -> bool {
    &&& on_segment(xy(p1), xy(p2), xy(c))
    &&& on_segment(xz(p1), xz(p2), xz(c))
    &&& on_segment(yz(p1), yz(p2), yz(c))
}

/// The projection that forgets coordinate `axis`.
pub open spec fn drop_axis(c: Point3D, axis: int) -> Point2D {
    if axis == 0 {
        yz(c)
    } else if axis == 1 {
        xz(c)
    } else {
        xy(c)
    }
}

/// The coordinate of `c` on `axis`.
pub open spec fn coordinate(c: Point3D, axis: int) -> int {
    if axis == 0 {
        c.x as int
    } else if axis == 1 {
        c.y as int
    } else {
        c.z as int
    }
}

/// Appends every point of `squares` lifted back into space with coordinate
/// `value` on `axis`.
fn push_lifted(cubes: &mut Vec<Point3D>, squares: &Vec<Point2D>, axis: u8, value: isize)
    requires
        axis <= 2,
    ensures
        forall|c: Point3D| #![trigger final(cubes)@.contains(c)]
            final(cubes)@.contains(c) <==> (old(cubes)@.contains(c) || (coordinate(c, axis as int)
                == value && squares@.contains(drop_axis(c, axis as int)))),
        (old(cubes)@.len() == 0 && squares@.no_duplicates()) ==> final(cubes)@.no_duplicates(),
{
    let ghost fresh = old(cubes)@.len() == 0 && squares@.no_duplicates();
    let mut i: usize = 0;
    while i < squares.len()
        invariant
            axis <= 2,
            0 <= i <= squares@.len(),
            forall|c: Point3D| #![trigger cubes@.contains(c)]
                cubes@.contains(c) <==> (old(cubes)@.contains(c) || (coordinate(c, axis as int)
                    == value && exists|j: int|
                    0 <= j < i && #[trigger] squares@[j] == drop_axis(c, axis as int))),
            fresh == (old(cubes)@.len() == 0 && squares@.no_duplicates()),
            fresh ==> cubes@.no_duplicates(),
        decreases squares@.len() - i,
    {
        let square = squares[i];
        let p = if axis == 0 {
            Point3D { x: value, y: square.x, z: square.y }
        } else if axis == 1 {
            Point3D { x: square.x, y: value, z: square.y }
        } else {
            Point3D { x: square.x, y: square.y, z: value }
        };
        let ghost prev = cubes@;
        proof {
            if fresh {
                assert(drop_axis(p, axis as int) == squares@[i as int]);
                if prev.contains(p) {
                    assert(!old(cubes)@.contains(p));
                    let j = choose|j: int|
                        0 <= j < i && #[trigger] squares@[j] == drop_axis(p, axis as int);
                    assert(squares@[j] == squares@[i as int]);
                }
                lemma_push_no_duplicates(prev, p);
            }
        }
        cubes.push(p);
        proof {
            lemma_push_contains(prev, p);
            assert forall|c: Point3D| #![trigger cubes@.contains(c)]
                cubes@.contains(c) <==> (old(cubes)@.contains(c) || (coordinate(c, axis as int)
                    == value && exists|j: int|
                    0 <= j < i + 1 && #[trigger] squares@[j] == drop_axis(c, axis as int))) by {
                if c == p {
                    assert(squares@[i as int] == drop_axis(c, axis as int));
                }
                if coordinate(c, axis as int) == value && exists|j: int|
                    0 <= j < i + 1 && #[trigger] squares@[j] == drop_axis(c, axis as int) {
                    let j = choose|j: int|
                        0 <= j < i + 1 && #[trigger] squares@[j] == drop_axis(c, axis as int);
                    if j == i {
                        assert(c == p);
                    }
                }
            }
        }
        i = i + 1;
    }
    proof {
        assert forall|c: Point3D| #![trigger cubes@.contains(c)]
            cubes@.contains(c) <==> (old(cubes)@.contains(c) || (coordinate(c, axis as int) == value
                && squares@.contains(drop_axis(c, axis as int)))) by {
            if squares@.contains(drop_axis(c, axis as int)) {
                let j = choose|j: int| 0 <= j < squares@.len() && squares@[j] == drop_axis(c, axis as int);
                assert(squares@[j] == drop_axis(c, axis as int));
            }
        }
    }
}

/// `e` divides `a` whenever it divides a divisor of `a`.
proof fn lemma_divides_trans(a: int, d: int, e: int)
    requires
        d > 0,
        e > 0,
        a % d == 0,
        d % e == 0,
    ensures
        a % e == 0,
{
    lemma_fundamental_div_mod(a, d);
    lemma_fundamental_div_mod(d, e);
    let k1 = a / d;
    let k2 = d / e;
    assert(a == e * (k2 * k1)) by (nonlinear_arith)
        requires
            a == d * k1,
            d == e * k2,
    ;
    lemma_mod_multiples_vanish(k2 * k1, 0, e);
    lemma_small_mod(0, e as nat);
}

/// `c` is `l + j * (sx, sy, sz)`.
pub open spec fn stepped_3d(l: Point3D, sx: int, sy: int, sz: int, j: int, c: Point3D) -> bool {
    c.x == l.x + j * sx && c.y == l.y + j * sy && c.z == l.z + j * sz
}

/// For a segment from `l` to `r` with `l.x < r.x`: its lattice points are
/// `l + j * (sx, sy, sz)` for `0 <= j <= g`, where `g` is the gcd of the
/// three coordinate differences and `(sx, sy, sz)` is the difference over `g`.
proof fn lemma_lattice_points_3d(
    l: Point3D,
    r: Point3D,
    g: int,
    sx: int,
    sy: int,
    sz: int,
    c: Point3D,
)
    requires
        l.x < r.x,
        g == gcd_spec(gcd_spec((r.x - l.x) as nat, abs(r.y - l.y) as nat), abs(r.z - l.z) as nat),
        r.x - l.x == g * sx,
        r.y - l.y == g * sy,
        r.z - l.z == g * sz,
    ensures
        g > 0,
        on_segment_3d(l, r, c) <==> exists|j: int|
            0 <= j <= g && #[trigger] stepped_3d(l, sx, sy, sz, j, c),
{
    let dx = r.x - l.x;
    let dy = r.y - l.y;
    let dz = r.z - l.z;
    let g1 = gcd_spec(dx as nat, abs(dy) as nat);
    lemma_gcd_divides(dx as nat, abs(dy) as nat);
    lemma_gcd_divides(g1, abs(dz) as nat);
    assert(g > 0);
    assert(sx > 0) by (nonlinear_arith)
        requires
            dx == g * sx,
            dx > 0,
            g > 0,
    ;
    assert(abs(dy) == g * abs(sy) && abs(dz) == g * abs(sz)) by (nonlinear_arith)
        requires
            dy == g * sy,
            dz == g * sz,
            g > 0,
    ;
    lemma_gcd_scale(sx as nat, abs(sy) as nat, g as nat);
    lemma_gcd_scale(gcd_spec(sx as nat, abs(sy) as nat), abs(sz) as nat, g as nat);
    let h = gcd_spec(gcd_spec(sx as nat, abs(sy) as nat), abs(sz) as nat);
    assert(h == 1) by (nonlinear_arith)
        requires
            g == g * h,
            g > 0,
    ;
    let u = c.x - l.x;
    let v = c.y - l.y;
    let w = c.z - l.z;
    if on_segment_3d(l, r, c) {
        assert(u * dy == v * dx);
        assert(u * dz == w * dx);
        assert(u * sy == v * sx && u * sz == w * sx) by (nonlinear_arith)
            requires
                u * dy == v * dx,
                u * dz == w * dx,
                dy == g * sy,
                dz == g * sz,
                dx == g * sx,
                g > 0,
        ;
        assert(0 <= u <= dx);
        if u == 0 {
            assert(v == 0 && w == 0) by (nonlinear_arith)
                requires
                    0 * sy == v * sx,
                    0 * sz == w * sx,
                    sx > 0,
            ;
            assert(stepped_3d(l, sx, sy, sz, 0, c));
        } else {
            assert(u * abs(sy) == abs(v) * sx && u * abs(sz) == abs(w) * sx) by (nonlinear_arith)
                requires
                    u * sy == v * sx,
                    u * sz == w * sx,
                    u > 0,
                    sx > 0,
            ;
            lemma_gcd_scale(sx as nat, abs(sy) as nat, u as nat);
            lemma_gcd_scale(gcd_spec(sx as nat, abs(sy) as nat), abs(sz) as nat, u as nat);
            assert((u * sx) % sx == 0 && (abs(v) * sx) % sx == 0 && (abs(w) * sx) % sx == 0) by {
                lemma_mod_multiples_vanish(u, 0, sx);
                lemma_mod_multiples_vanish(abs(v), 0, sx);
                lemma_mod_multiples_vanish(abs(w), 0, sx);
                lemma_small_mod(0, sx as nat);
                lemma_mul_is_commutative(u, sx);
                lemma_mul_is_commutative(abs(v), sx);
                lemma_mul_is_commutative(abs(w), sx);
            }
            lemma_gcd_greatest((u * sx) as nat, (u * abs(sy)) as nat, sx);
            lemma_gcd_greatest(
                gcd_spec((u * sx) as nat, (u * abs(sy)) as nat),
                (u * abs(sz)) as nat,
                sx,
            );
            assert(u * 1 == u);
            lemma_fundamental_div_mod(u, sx);
            let j = u / sx;
            assert(u == sx * j);
            assert(0 <= j <= g && v == j * sy && w == j * sz) by (nonlinear_arith)
                requires
                    u == sx * j,
                    0 < u <= dx,
                    dx == g * sx,
                    sx > 0,
                    u * sy == v * sx,
                    u * sz == w * sx,
            ;
            assert(j * sx == sx * j) by (nonlinear_arith);
            assert(stepped_3d(l, sx, sy, sz, j, c));
        }
    }
    if exists|j: int| 0 <= j <= g && #[trigger] stepped_3d(l, sx, sy, sz, j, c) {
        let j = choose|j: int| 0 <= j <= g && #[trigger] stepped_3d(l, sx, sy, sz, j, c);
        assert(u * dy == v * dx && u * dz == w * dx && v * dz == w * dy && 0 <= u <= dx) by (
        nonlinear_arith)
            requires
                u == j * sx,
                v == j * sy,
                w == j * sz,
                dx == g * sx,
                dy == g * sy,
                dz == g * sz,
                0 <= j <= g,
                sx > 0,
        ;
        assert(min(l.y as int, r.y as int) <= c.y <= max(l.y as int, r.y as int)) by (
        nonlinear_arith)
            requires
                v == j * sy,
                dy == g * sy,
                0 <= j <= g,
                v == c.y - l.y,
                dy == r.y - l.y,
        ;
        assert(min(l.z as int, r.z as int) <= c.z <= max(l.z as int, r.z as int)) by (
        nonlinear_arith)
            requires
                w == j * sz,
                dz == g * sz,
                0 <= j <= g,
                w == c.z - l.z,
                dz == r.z - l.z,
        ;
    }
}

/// The lattice points on the closed segment from `point1` to `point2`. A
/// segment with a coordinate held constant is rasterised in the plane of the
/// other two; otherwise the points are stepped along x by the least common
/// multiple of the denominators of `dy/dx` and `dz/dx` in lowest terms,
/// which is `dx` over the gcd of the three differences.
pub fn integer_points_on_line_segment_3d(point1: Point3D, point2: Point3D) -> (cubes: Vec<
    Point3D,
>)
    requires
        segment_fits_3d(point1, point2),
    ensures
        forall|c: Point3D| #![trigger cubes@.contains(c)]
            cubes@.contains(c) <==> on_segment_3d(point1, point2, c),
        cubes@.no_duplicates(),
{
    let mut cubes: Vec<Point3D> = Vec::new();
    if point1.x == point2.x {
        let projected_cubes = integer_points_on_line_segment_2d(
            Point2D { x: point1.y, y: point1.z },
            Point2D { x: point2.y, y: point2.z },
        );
        push_lifted(&mut cubes, &projected_cubes, 0, point1.x);
        proof {
            assert forall|c: Point3D| #![trigger cubes@.contains(c)]
                cubes@.contains(c) <==> on_segment_3d(point1, point2, c) by {
                if c.x == point1.x {
                    assert((c.x - point1.x) * (point2.y - point1.y) == 0 && (c.y - point1.y) * (
                    point2.x - point1.x) == 0 && (c.x - point1.x) * (point2.z - point1.z) == 0 && (c.z
                        - point1.z) * (point2.x - point1.x) == 0) by (nonlinear_arith)
                        requires
                            c.x == point1.x,
                            point2.x == point1.x,
                    ;
                }
            }
        }
        return cubes;
    }
    if point1.y == point2.y {
        let projected_cubes = integer_points_on_line_segment_2d(
            Point2D { x: point1.x, y: point1.z },
            Point2D { x: point2.x, y: point2.z },
        );
        push_lifted(&mut cubes, &projected_cubes, 1, point1.y);
        proof {
            assert forall|c: Point3D| #![trigger cubes@.contains(c)]
                cubes@.contains(c) <==> on_segment_3d(point1, point2, c) by {
                if c.y == point1.y {
                    assert((c.x - point1.x) * (point2.y - point1.y) == 0 && (c.y - point1.y) * (
                    point2.x - point1.x) == 0 && (c.y - point1.y) * (point2.z - point1.z) == 0 && (c.z
                        - point1.z) * (point2.y - point1.y) == 0) by (nonlinear_arith)
                        requires
                            c.y == point1.y,
                            point2.y == point1.y,
                    ;
                }
            }
        }
        return cubes;
    }
    if point1.z == point2.z {
        let projected_cubes = integer_points_on_line_segment_2d(
            Point2D { x: point1.x, y: point1.y },
            Point2D { x: point2.x, y: point2.y },
        );
        push_lifted(&mut cubes, &projected_cubes, 2, point1.z);
        proof {
            assert forall|c: Point3D| #![trigger cubes@.contains(c)]
                cubes@.contains(c) <==> on_segment_3d(point1, point2, c) by {
                if c.z == point1.z {
                    assert((c.x - point1.x) * (point2.z - point1.z) == 0 && (c.z - point1.z) * (
                    point2.x - point1.x) == 0 && (c.y - point1.y) * (point2.z - point1.z) == 0 && (c.z
                        - point1.z) * (point2.y - point1.y) == 0) by (nonlinear_arith)
                        requires
                            c.z == point1.z,
                            point2.z == point1.z,
                    ;
                }
            }
        }
        return cubes;
    }
    let left_point = if point1.x < point2.x {
        point1
    } else {
        point2
    };
    let right_point = if point1.x < point2.x {
        point2
    } else {
        point1
    };
    proof {
        assert forall|c: Point3D|
            on_segment_3d(point1, point2, c) == #[trigger] on_segment_3d(left_point, right_point, c)
            by {
            lemma_on_segment_symmetric(xy(point1), xy(point2), xy(c));
            lemma_on_segment_symmetric(xz(point1), xz(point2), xz(c));
            lemma_on_segment_symmetric(yz(point1), yz(point2), yz(c));
        }
        crate::line2d::lemma_segment_fits(xy(point1), xy(point2));
        crate::line2d::lemma_segment_fits(xz(point1), xz(point2));
    }
    let dx = right_point.x - left_point.x;
    let dy = right_point.y - left_point.y;
    let dz = right_point.z - left_point.z;
    let run = dx as usize;
    let abs_dy: usize = if dy < 0 {
        (-dy) as usize
    } else {
        dy as usize
    };
    let abs_dz: usize = if dz < 0 {
        (-dz) as usize
    } else {
        dz as usize
    };
    let g1 = gcd(run, abs_dy);
    let common_factor = gcd(g1, abs_dz);
    let ghost g = common_factor as int;
    proof {
        lemma_gcd_divides(run as nat, abs_dy as nat);
        lemma_gcd_divides(g1 as nat, abs_dz as nat);
        lemma_divides_trans(run as int, g1 as int, g);
        lemma_divides_trans(abs_dy as int, g1 as int, g);
        lemma_fundamental_div_mod(run as int, g);
        lemma_fundamental_div_mod(abs_dy as int, g);
        lemma_fundamental_div_mod(abs_dz as int, g);
    }
    let step_x = (run / common_factor) as isize;
    let ady = (abs_dy / common_factor) as isize;
    let adz = (abs_dz / common_factor) as isize;
    let step_y: isize = if dy < 0 {
        -ady
    } else {
        ady
    };
    let step_z: isize = if dz < 0 {
        -adz
    } else {
        adz
    };
    proof {
        assert(dx == g * step_x);
        assert(dy == g * step_y) by (nonlinear_arith)
            requires
                abs_dy == g * ady,
                dy < 0 ==> abs_dy == -dy && step_y == -ady,
                dy >= 0 ==> abs_dy == dy && step_y == ady,
        ;
        assert(dz == g * step_z) by (nonlinear_arith)
            requires
                abs_dz == g * adz,
                dz < 0 ==> abs_dz == -dz && step_z == -adz,
                dz >= 0 ==> abs_dz == dz && step_z == adz,
        ;
        assert(step_x > 0 && g <= dx) by (nonlinear_arith)
            requires
                dx == g * step_x,
                dx > 0,
                g > 0,
        ;
    }
    let mut num: usize = 0;
    while num <= common_factor
        invariant
            g == common_factor,
            g > 0,
            g <= dx,
            step_x > 0,
            dx == g * step_x,
            dy == g * step_y,
            dz == g * step_z,
            dx == right_point.x - left_point.x,
            dy == right_point.y - left_point.y,
            dz == right_point.z - left_point.z,
            16 * (dx + 1) <= isize::MAX,
            -isize::MAX < left_point.x < isize::MAX,
            -isize::MAX < left_point.y < isize::MAX,
            -isize::MAX < left_point.z < isize::MAX,
            -isize::MAX < right_point.x < isize::MAX,
            -isize::MAX < right_point.y < isize::MAX,
            -isize::MAX < right_point.z < isize::MAX,
            num <= g + 1,
            forall|c: Point3D| #![trigger cubes@.contains(c)]
                cubes@.contains(c) <==> exists|j: int|
                    0 <= j < num && #[trigger] stepped_3d(left_point, step_x as int, step_y as int, step_z as int, j, c),
            cubes@.no_duplicates(),
        decreases g + 1 - num,
    {
        let k = num as isize;
        proof {
            assert(0 <= k * step_x <= dx) by (nonlinear_arith)
                requires
                    0 <= k <= g,
                    dx == g * step_x,
                    step_x > 0,
            ;
            assert(min(0, dy as int) <= k * step_y <= max(0, dy as int)) by (nonlinear_arith)
                requires
                    0 <= k <= g,
                    dy == g * step_y,
            ;
            assert(min(0, dz as int) <= k * step_z <= max(0, dz as int)) by (nonlinear_arith)
                requires
                    0 <= k <= g,
                    dz == g * step_z,
            ;
        }
        let p = Point3D {
            x: left_point.x + k * step_x,
            y: left_point.y + k * step_y,
            z: left_point.z + k * step_z,
        };
        let ghost prev = cubes@;
        proof {
            if prev.contains(p) {
                let j = choose|j: int|
                    0 <= j < num && #[trigger] stepped_3d(left_point, step_x as int, step_y as int, step_z as int, j, p);
                assert(j * step_x < k * step_x) by (nonlinear_arith)
                    requires
                        j < k,
                        step_x > 0,
                ;
            }
            lemma_push_no_duplicates(prev, p);
        }
        cubes.push(p);
        proof {
            lemma_push_contains(prev, p);
            assert forall|c: Point3D| #![trigger cubes@.contains(c)]
                cubes@.contains(c) <==> exists|j: int|
                    0 <= j < num + 1 && #[trigger] stepped_3d(left_point, step_x as int, step_y as int, step_z as int, j, c) by {
                if c == p {
                    assert(stepped_3d(left_point, step_x as int, step_y as int, step_z as int, num as int, c));
                }
                if exists|j: int|
                    0 <= j < num + 1 && #[trigger] stepped_3d(left_point, step_x as int, step_y as int, step_z as int, j, c) {
                    let j = choose|j: int|
                        0 <= j < num + 1 && #[trigger] stepped_3d(left_point, step_x as int, step_y as int, step_z as int, j, c);
                    if j == num {
                        assert(c == p);
                    }
                }
            }
        }
        num = num + 1;
    }
    proof {
        assert forall|c: Point3D| #![trigger cubes@.contains(c)]
            cubes@.contains(c) <==> on_segment_3d(point1, point2, c) by {
            lemma_lattice_points_3d(left_point, right_point, g, step_x as int, step_y as int, step_z as int, c);
        }
    }
    cubes
}

/// The lattice points on the closed segment from `point1` to `point2`; see
/// `integer_points_on_line_segment_3d`.
#[allow(non_snake_case)]
pub fn integer_points_on_line_3D(point1: Point3D, point2: Point3D) -> (cubes: Vec<Point3D>)
    requires
        segment_fits_3d(point1, point2),
    ensures
        forall|c: Point3D| #![trigger cubes@.contains(c)]
            cubes@.contains(c) <==> on_segment_3d(point1, point2, c),
        cubes@.no_duplicates(),
{
    integer_points_on_line_segment_3d(point1, point2)
}

/// The cube centred on `c` (an open unit cube) meets the closed segment from
/// `p1` to `p2`. Taken layer by layer: the part of the segment between the
/// planes `z = c.z - 1/2` and `z = c.z + 1/2` is measured in a grid of
/// `1 / (2 * dz)` steps, where its ends have integer coordinates, and must
/// pass through the open square around `(c.x, c.y)`.
pub open spec fn cube_touched(p1: Point3D, p2: Point3D, c: Point3D) -> bool {
    if p1.z == p2.z {
        c.z == p1.z && cell_touched(xy(p1), xy(p2), 1, 2, xy(c))
    } else {
        let lo = if p1.z < p2.z {
            p1
        } else {
            p2
        };
        let hi = if p1.z < p2.z {
            p2
        } else {
            p1
        };
        let dz = hi.z - lo.z;
        let k = c.z - lo.z;
        let t0 = max(0, 2 * k - 1);
        let t1 = min(2 * dz, 2 * k + 1);
        &&& 0 <= k <= dz
        &&& scaled_cell_touched(
            2 * dz * lo.x + (hi.x - lo.x) * t0,
            2 * dz * lo.y + (hi.y - lo.y) * t0,
            2 * dz * lo.x + (hi.x - lo.x) * t1,
            2 * dz * lo.y + (hi.y - lo.y) * t1,
            dz,
            dz,
            xy(c),
        )
    }
}

/// The largest coordinate magnitude of the two points, plus one.
pub open spec fn extent_3d(p1: Point3D, p2: Point3D) -> int {
    1 + max(
        max(max(abs(p1.x as int), abs(p1.y as int)), abs(p1.z as int)),
        max(max(abs(p2.x as int), abs(p2.y as int)), abs(p2.z as int)),
    )
}

/// Coordinates small enough for the layered sweep's grid to fit in a machine word.
pub open spec fn cells_3d_fits(p1: Point3D, p2: Point3D) -> bool {
    let m = extent_3d(p1, p2);
    &&& segment_fits(xy(p1), xy(p2))
    &&& 64 * (16 * m * m + 1) * (16 * m * m + 1) <= isize::MAX
}

/// The cubes that the segment from `point1` to `point2` passes through:
/// each horizontal layer of cubes is swept in the plane, over the part of
/// the segment that lies within that layer.
pub fn integer_cells_on_line_segment_3d(point1: Point3D, point2: Point3D) -> (cubes: Vec<
    Point3D,
>)
    requires
        cells_3d_fits(point1, point2),
    ensures
        forall|c: Point3D| #![trigger cubes@.contains(c)]
            cubes@.contains(c) <==> cube_touched(point1, point2, c),
        cubes@.no_duplicates(),
{
    let mut cubes: Vec<Point3D> = Vec::new();
    if point1.z == point2.z {
        let squares = integer_cells_on_line_segment_2d(
            Point2D { x: point1.x, y: point1.y },
            Point2D { x: point2.x, y: point2.y },
        );
        push_layer(&mut cubes, &squares, point1.z);
        return cubes;
    }
    let lo = if point1.z < point2.z {
        point1
    } else {
        point2
    };
    let hi = if point1.z < point2.z {
        point2
    } else {
        point1
    };
    let ghost m = extent_3d(point1, point2);
    let ghost b = 16 * m * m;
    proof {
        assert(abs(lo.x as int) < m && abs(lo.y as int) < m && abs(lo.z as int) < m);
        assert(abs(hi.x as int) < m && abs(hi.y as int) < m && abs(hi.z as int) < m);
        assert(m <= b && 64 * (b + 1) <= 64 * (b + 1) * (b + 1)) by (nonlinear_arith)
            requires
                m >= 1,
                b == 16 * m * m,
        ;
    }
    let dz = hi.z - lo.z;
    let dx = hi.x - lo.x;
    let dy = hi.y - lo.y;
    let mut k: isize = 0;
    while k <= dz
        invariant
            lo.z < hi.z,
            dz == hi.z - lo.z,
            dx == hi.x - lo.x,
            dy == hi.y - lo.y,
            lo == (if point1.z < point2.z {
                point1
            } else {
                point2
            }),
            hi == (if point1.z < point2.z {
                point2
            } else {
                point1
            }),
            point1.z != point2.z,
            m >= 1,
            b == 16 * m * m,
            m <= b,
            64 * (b + 1) <= isize::MAX,
            64 * (b + 1) * (b + 1) <= isize::MAX,
            abs(lo.x as int) < m,
            abs(lo.y as int) < m,
            abs(lo.z as int) < m,
            abs(hi.x as int) < m,
            abs(hi.y as int) < m,
            abs(hi.z as int) < m,
            0 <= k <= dz + 1,
            forall|c: Point3D| #![trigger cubes@.contains(c)]
                cubes@.contains(c) <==> (c.z - lo.z < k && cube_touched(point1, point2, c)),
            cubes@.no_duplicates(),
        decreases dz + 1 - k,
    {
        let t0 = if 2 * k - 1 > 0 {
            2 * k - 1
        } else {
            0
        };
        let t1 = if 2 * k + 1 < 2 * dz {
            2 * k + 1
        } else {
            2 * dz
        };
        proof {
            assert(0 <= t0 <= 2 * dz && 0 <= t1 <= 2 * dz);
            assert(abs(dx as int) < 2 * m && abs(dy as int) < 2 * m && 0 < dz < 2 * m);
            assert(abs(2 * dz * lo.x) <= 4 * (m * m) && abs(dx * t0) <= 8 * (m * m) && abs(dx * t1)
                <= 8 * (m * m)) by (nonlinear_arith)
                requires
                    0 <= t0 <= 2 * dz,
                    0 <= t1 <= 2 * dz,
                    0 < dz < 2 * m,
                    abs(lo.x as int) < m,
                    abs(dx as int) < 2 * m,
            ;
            assert(abs(2 * dz * lo.y) <= 4 * (m * m) && abs(dy * t0) <= 8 * (m * m) && abs(dy * t1)
                <= 8 * (m * m)) by (nonlinear_arith)
                requires
                    0 <= t0 <= 2 * dz,
                    0 <= t1 <= 2 * dz,
                    0 < dz < 2 * m,
                    abs(lo.y as int) < m,
                    abs(dy as int) < 2 * m,
            ;
            assert(b == 16 * (m * m)) by (nonlinear_arith)
                requires
                    b == 16 * m * m,
            ;
            assert(abs(2 * dz) <= 4 * (m * m)) by (nonlinear_arith)
                requires
                    0 < dz < 2 * m,
                    m >= 1,
            ;
        }
        let mut squares: Vec<Point2D> = Vec::new();
        push_scaled_cells(
            &mut squares,
            2 * dz * lo.x + dx * t0,
            2 * dz * lo.y + dy * t0,
            2 * dz * lo.x + dx * t1,
            2 * dz * lo.y + dy * t1,
            dz,
            dz,
            Ghost(b),
        );
        let ghost prev = cubes@;
        push_layer(&mut cubes, &squares, lo.z + k);
        proof {
            assert forall|c: Point3D| #![trigger cubes@.contains(c)]
                cubes@.contains(c) <==> (c.z - lo.z < k + 1 && cube_touched(point1, point2, c)) by {
                assert(prev.contains(c) == (c.z - lo.z < k && cube_touched(point1, point2, c)));
                if c.z == lo.z + k {
                    assert(xy(c) == (Point2D { x: c.x, y: c.y }));
                }
            }
        }
        k = k + 1;
    }
    cubes
}

/// The cubes within L-infinity distance one half of the segment; see
/// `integer_cells_on_line_segment_3d`.
#[allow(non_snake_case)]
pub fn l_infinity_line_3D(point1: Point3D, point2: Point3D) -> (cubes: Vec<Point3D>)
    requires
        cells_3d_fits(point1, point2),
    ensures
        forall|c: Point3D| #![trigger cubes@.contains(c)]
            cubes@.contains(c) <==> cube_touched(point1, point2, c),
        cubes@.no_duplicates(),
{
    integer_cells_on_line_segment_3d(point1, point2)
}

} // verus!
