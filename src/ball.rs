//! Lattice points within a given radius of a centre, under the L1, L2 and
//! L-infinity metrics, in the plane and in space. Membership in the L2 ball is
//! always decided by comparing squared integers.
use vstd::prelude::*;
use crate::line2d::push_column;
use crate::point::{Point2D, Point3D, max, min};
use crate::rational::abs;

verus! {

pub open spec fn sq(a: int) -> int {
    a * a
}

/// `c` is within Euclidean distance `sqrt(n)` of `center`.
pub open spec fn in_disk(center: Point2D, n: int, c: Point2D) -> bool {
    sq(c.x - center.x) + sq(c.y - center.y) <= n
}

/// `c` is within taxicab distance `r` of `center`.
pub open spec fn in_diamond(center: Point2D, r: int, c: Point2D) -> bool {
    abs(c.x - center.x) + abs(c.y - center.y) <= r
}

/// `c` is within Chebyshev distance `r` of `center`.
pub open spec fn in_square(center: Point2D, r: int, c: Point2D) -> bool {
    abs(c.x - center.x) <= r && abs(c.y - center.y) <= r
}

/// A centre and radius whose every candidate point, and the square of the
/// radius, fit in a machine word.
pub open spec fn ball_fits_2d(center: Point2D, radius: int) -> bool {
    &&& 0 <= radius
    &&& -isize::MAX < center.x - radius - 1
    &&& center.x + radius + 1 < isize::MAX
    &&& -isize::MAX < center.y - radius - 1
    &&& center.y + radius + 1 < isize::MAX
    &&& 4 * (radius + 1) * (radius + 1) <= isize::MAX
}

/// `forall c: s.push(p).contains(c) == (s.contains(c) || c == p)`.
pub proof fn lemma_push_contains<T>(s: Seq<T>, p: T)
    ensures
        forall|c: T| #[trigger] s.push(p).contains(c) == (s.contains(c) || c == p),
{
    assert forall|c: T| #[trigger] s.push(p).contains(c) == (s.contains(c) || c == p) by {
        if s.push(p).contains(c) {
            let i = choose|i: int| 0 <= i < s.push(p).len() && s.push(p)[i] == c;
            if i < s.len() {
                assert(s[i] == c);
            }
        }
        if s.contains(c) {
            let i = choose|i: int| 0 <= i < s.len() && s[i] == c;
            assert(s.push(p)[i] == c);
        }
        if c == p {
            assert(s.push(p)[s.len() as int] == c);
        }
    }
}

/// Pushing an element that is not there keeps a sequence free of duplicates.
pub proof fn lemma_push_no_duplicates<T>(s: Seq<T>, p: T)
    requires
        s.no_duplicates(),
        !s.contains(p),
    ensures
        s.push(p).no_duplicates(),
{
    assert forall|i: int, j: int|
        0 <= i < s.push(p).len() && 0 <= j < s.push(p).len() && i != j implies s.push(p)[i]
        != s.push(p)[j] by {
        if i == s.len() {
            assert(s[j] == s.push(p)[j]);
        } else if j == s.len() {
            assert(s[i] == s.push(p)[i]);
        }
    }
}

/// The greatest `k` with `k * k <= n`.
fn isqrt(n: isize) -> (k: isize)
    requires
        0 <= n,
        4 * n + 4 <= isize::MAX,
    ensures
        0 <= k,
        k * k <= n < (k + 1) * (k + 1),
{
    let mut k: isize = 0;
    assert((k + 1) * (k + 1) == 1);
    while (k + 1) * (k + 1) <= n
        invariant
            0 <= k <= n + 1,
            k * k <= n,
            (k + 1) * (k + 1) <= 4 * n + 4,
            4 * n + 4 <= isize::MAX,
        decreases n - k * k,
    {
        k = k + 1;
        proof {
            assert(k * k > (k - 1) * (k - 1) && (k + 1) * (k + 1) <= 4 * n + 4 && k <= n) by (
            nonlinear_arith)
                requires
                    k >= 1,
                    k * k <= n,
            ;
        }
    }
    k
}

/// The lattice points `c` with `max(|c.x - center.x|, |c.y - center.y|) <= radius`.
pub fn integer_points_inside_square(center: Point2D, radius: isize) -> (squares: Vec<Point2D>)
    requires
        ball_fits_2d(center, radius as int),
    ensures
        forall|c: Point2D| #![trigger squares@.contains(c)]
            squares@.contains(c) <==> in_square(center, radius as int, c),
{
    let mut squares: Vec<Point2D> = Vec::new();
    let mut x = -radius;
    while x <= radius
        invariant
            ball_fits_2d(center, radius as int),
            -radius <= x <= radius + 1,
            forall|c: Point2D| #![trigger squares@.contains(c)]
                squares@.contains(c) <==> (-radius <= c.x - center.x < x && abs(c.y - center.y)
                    <= radius),
        decreases radius + 1 - x,
    {
        push_column(&mut squares, center.x + x, center.y, 1, -radius, radius);
        proof {
            assert forall|c: Point2D| #![trigger squares@.contains(c)]
                squares@.contains(c) <==> (-radius <= c.x - center.x < x + 1 && abs(c.y
                    - center.y) <= radius) by {
                assert(1 * (c.y - center.y) == c.y - center.y);
            }
        }
        x = x + 1;
    }
    squares
}

/// The lattice points `c` with `|c.x - center.x| + |c.y - center.y| <= radius`.
pub fn integer_points_inside_dimond_2d(center: Point2D, radius: isize) -> (squares: Vec<Point2D>)
    requires
        ball_fits_2d(center, radius as int),
    ensures
        forall|c: Point2D| #![trigger squares@.contains(c)]
            squares@.contains(c) <==> in_diamond(center, radius as int, c),
{
    let mut squares: Vec<Point2D> = Vec::new();
    let mut x = -radius;
    while x <= radius
        invariant
            ball_fits_2d(center, radius as int),
            -radius <= x <= radius + 1,
            forall|c: Point2D| #![trigger squares@.contains(c)]
                squares@.contains(c) <==> (-radius <= c.x - center.x < x && abs(c.x - center.x)
                    + abs(c.y - center.y) <= radius),
        decreases radius + 1 - x,
    {
        let width = if x < 0 {
            radius + x
        } else {
            radius - x
        };
        push_column(&mut squares, center.x + x, center.y, 1, -width, width);
        proof {
            assert forall|c: Point2D| #![trigger squares@.contains(c)]
                squares@.contains(c) <==> (-radius <= c.x - center.x < x + 1 && abs(c.x
                    - center.x) + abs(c.y - center.y) <= radius) by {
                assert(1 * (c.y - center.y) == c.y - center.y);
            }
        }
        x = x + 1;
    }
    squares
}

/// Appends `(center.x + x, center.y + y)` for `-radius <= y <= radius` with
/// `x * x + y * y <= n`.
fn push_disk_column(
    squares: &mut Vec<Point2D>,
    center: Point2D,
    x: isize,
    radius: isize,
    n: isize,
)
    requires
        ball_fits_2d(center, radius as int),
        -radius <= x <= radius,
        0 <= n <= radius * radius,
    ensures
        forall|c: Point2D| #![trigger final(squares)@.contains(c)]
            final(squares)@.contains(c) <==> (old(squares)@.contains(c) || (c.x - center.x == x
                && -radius <= c.y - center.y <= radius && sq(x as int) + sq(c.y - center.y) <= n)),
        (old(squares)@.no_duplicates() && forall|c: Point2D| #[trigger]
            old(squares)@.contains(c) ==> c.x - center.x != x) ==> final(squares)@.no_duplicates(),
{
    let ghost fresh = old(squares)@.no_duplicates() && forall|c: Point2D| #[trigger]
        old(squares)@.contains(c) ==> c.x - center.x != x;
    proof {
        assert(0 <= x * x <= radius * radius && radius * radius <= 4 * (radius + 1) * (radius
            + 1)) by (nonlinear_arith)
            requires
                -radius <= x <= radius,
        ;
    }
    let xx = x * x;
    let mut y = -radius;
    while y <= radius
        invariant
            ball_fits_2d(center, radius as int),
            -radius <= x <= radius,
            xx == x * x,
            0 <= xx <= radius * radius,
            0 <= n <= radius * radius,
            -radius <= y <= radius + 1,
            forall|c: Point2D| #![trigger squares@.contains(c)]
                squares@.contains(c) <==> (old(squares)@.contains(c) || (c.x - center.x == x
                    && -radius <= c.y - center.y < y && sq(x as int) + sq(c.y - center.y) <= n)),
            fresh == (old(squares)@.no_duplicates() && forall|c: Point2D| #[trigger]
                old(squares)@.contains(c) ==> c.x - center.x != x),
            fresh ==> squares@.no_duplicates(),
        decreases radius + 1 - y,
    {
        proof {
            assert(0 <= y * y <= radius * radius) by (nonlinear_arith)
                requires
                    -radius <= y <= radius,
            ;
            assert(2 * (radius * radius) <= 4 * (radius + 1) * (radius + 1)) by (nonlinear_arith)
                requires
                    radius >= 0,
            ;
        }
        if xx + y * y <= n {
            let ghost prev = squares@;
            let p = Point2D { x: center.x + x, y: center.y + y };
            proof {
                if fresh {
                    assert(!prev.contains(p));
                    lemma_push_no_duplicates(prev, p);
                }
            }
            squares.push(p);
            proof {
                lemma_push_contains(prev, p);
            }
        }
        y = y + 1;
    }
}

/// The lattice points within Euclidean distance `radius` of `center`, found
/// by testing every point of the bounding square.
pub fn integer_points_inside_circle_slow(center: Point2D, radius: isize) -> (squares: Vec<Point2D>)
    requires
        ball_fits_2d(center, radius as int),
    ensures
        forall|c: Point2D| #![trigger squares@.contains(c)]
            squares@.contains(c) <==> in_disk(center, radius * radius, c),
        squares@.no_duplicates(),
{
    let mut squares: Vec<Point2D> = Vec::new();
    proof {
        assert(radius * radius <= 4 * (radius + 1) * (radius + 1)) by (nonlinear_arith)
            requires
                radius >= 0,
        ;
    }
    let n = radius * radius;
    let mut x = -radius;
    while x <= radius
        invariant
            ball_fits_2d(center, radius as int),
            n == radius * radius,
            -radius <= x <= radius + 1,
            forall|c: Point2D| #![trigger squares@.contains(c)]
                squares@.contains(c) <==> (-radius <= c.x - center.x < x && -radius <= c.y
                    - center.y <= radius && in_disk(center, n as int, c)),
            squares@.no_duplicates(),
        decreases radius + 1 - x,
    {
        push_disk_column(&mut squares, center, x, radius, n);
        x = x + 1;
    }
    proof {
        assert forall|c: Point2D| #![trigger squares@.contains(c)]
            squares@.contains(c) <==> in_disk(center, radius * radius, c) by {
            let u = c.x - center.x;
            let v = c.y - center.y;
            if in_disk(center, radius * radius, c) {
                assert(-radius <= u <= radius && -radius <= v <= radius) by (nonlinear_arith)
                    requires
                        u * u + v * v <= radius * radius,
                        radius >= 0,
                ;
            }
        }
    }
    squares
}

/// `c` is one of the eight reflections of `(x, y)` about `center`.
pub open spec fn mirrored(center: Point2D, x: int, y: int, c: Point2D) -> bool {
    (abs(c.x - center.x) == x && abs(c.y - center.y) == y) || (abs(c.x - center.x) == y && abs(
        c.y - center.y,
    ) == x)
}

/// Appends the eight reflections of `(x, y)` about `center`.
fn push_mirrored(squares: &mut Vec<Point2D>, center: Point2D, x: isize, y: isize, r: Ghost<int>)
    requires
        ball_fits_2d(center, r@),
        0 <= y <= r@,
        0 <= x <= r@,
    ensures
        forall|c: Point2D| #![trigger final(squares)@.contains(c)]
            final(squares)@.contains(c) <==> (old(squares)@.contains(c) || mirrored(
                center,
                x as int,
                y as int,
                c,
            )),
        (old(squares)@.no_duplicates() && 0 < y < x && forall|c: Point2D| #[trigger]
            old(squares)@.contains(c) ==> !mirrored(center, x as int, y as int, c))
            ==> final(squares)@.no_duplicates(),
{
    let p1 = Point2D { x: x + center.x, y: y + center.y };
    let p2 = Point2D { x: x + center.x, y: -y + center.y };
    let p3 = Point2D { x: -x + center.x, y: y + center.y };
    let p4 = Point2D { x: -x + center.x, y: -y + center.y };
    let p5 = Point2D { x: y + center.x, y: x + center.y };
    let p6 = Point2D { x: -y + center.x, y: x + center.y };
    let p7 = Point2D { x: y + center.x, y: -x + center.y };
    let p8 = Point2D { x: -y + center.x, y: -x + center.y };
    let ghost s0 = squares@;
    squares.push(p1);
    squares.push(p2);
    squares.push(p3);
    squares.push(p4);
    squares.push(p5);
    squares.push(p6);
    squares.push(p7);
    squares.push(p8);
    proof {
        lemma_push_contains(s0, p1);
        lemma_push_contains(s0.push(p1), p2);
        lemma_push_contains(s0.push(p1).push(p2), p3);
        lemma_push_contains(s0.push(p1).push(p2).push(p3), p4);
        lemma_push_contains(s0.push(p1).push(p2).push(p3).push(p4), p5);
        lemma_push_contains(s0.push(p1).push(p2).push(p3).push(p4).push(p5), p6);
        lemma_push_contains(s0.push(p1).push(p2).push(p3).push(p4).push(p5).push(p6), p7);
        lemma_push_contains(s0.push(p1).push(p2).push(p3).push(p4).push(p5).push(p6).push(p7), p8);
        assert(squares@ == s0.push(p1).push(p2).push(p3).push(p4).push(p5).push(p6).push(p7).push(p8));
        if s0.no_duplicates() && 0 < y < x && forall|c: Point2D| #[trigger]
            s0.contains(c) ==> !mirrored(center, x as int, y as int, c) {
            assert(mirrored(center, x as int, y as int, p1) && mirrored(center, x as int, y as int, p2)
                && mirrored(center, x as int, y as int, p3) && mirrored(center, x as int, y as int, p4)
                && mirrored(center, x as int, y as int, p5) && mirrored(center, x as int, y as int, p6)
                && mirrored(center, x as int, y as int, p7) && mirrored(center, x as int, y as int, p8));
            lemma_push_no_duplicates(s0, p1);
            lemma_push_no_duplicates(s0.push(p1), p2);
            lemma_push_no_duplicates(s0.push(p1).push(p2), p3);
            lemma_push_no_duplicates(s0.push(p1).push(p2).push(p3), p4);
            lemma_push_no_duplicates(s0.push(p1).push(p2).push(p3).push(p4), p5);
            lemma_push_no_duplicates(s0.push(p1).push(p2).push(p3).push(p4).push(p5), p6);
            lemma_push_no_duplicates(s0.push(p1).push(p2).push(p3).push(p4).push(p5).push(p6), p7);
            lemma_push_no_duplicates(s0.push(p1).push(p2).push(p3).push(p4).push(p5).push(p6).push(p7), p8);
        }
        assert forall|c: Point2D| #![trigger squares@.contains(c)]
            squares@.contains(c) <==> (s0.contains(c) || mirrored(center, x as int, y as int, c)) by {
            if mirrored(center, x as int, y as int, c) {
                if abs(c.x - center.x) == x && abs(c.y - center.y) == y {
                    if c.x - center.x == x {
                        if c.y - center.y == y {
                            assert(c == p1);
                        } else {
                            assert(c == p2);
                        }
                    } else {
                        if c.y - center.y == y {
                            assert(c == p3);
                        } else {
                            assert(c == p4);
                        }
                    }
                } else {
                    if c.x - center.x == y {
                        if c.y - center.y == x {
                            assert(c == p5);
                        } else {
                            assert(c == p7);
                        }
                    } else {
                        if c.y - center.y == x {
                            assert(c == p6);
                        } else {
                            assert(c == p8);
                        }
                    }
                }
            }
        }
    }
}

/// Appends the four points at distance `num` from `center` along the axes.
fn push_axes(squares: &mut Vec<Point2D>, center: Point2D, num: isize, r: Ghost<int>)
    requires
        ball_fits_2d(center, r@),
        0 <= num <= r@,
    ensures
        forall|c: Point2D| #![trigger final(squares)@.contains(c)]
            final(squares)@.contains(c) <==> (old(squares)@.contains(c) || mirrored(
                center,
                num as int,
                0,
                c,
            )),
        (old(squares)@.no_duplicates() && 0 < num && forall|c: Point2D| #[trigger]
            old(squares)@.contains(c) ==> !mirrored(center, num as int, 0, c))
            ==> final(squares)@.no_duplicates(),
{
    let p1 = Point2D { x: num + center.x, y: center.y };
    let p2 = Point2D { x: -num + center.x, y: center.y };
    let p3 = Point2D { x: center.x, y: num + center.y };
    let p4 = Point2D { x: center.x, y: -num + center.y };
    let ghost s0 = squares@;
    squares.push(p1);
    squares.push(p2);
    squares.push(p3);
    squares.push(p4);
    proof {
        lemma_push_contains(s0, p1);
        lemma_push_contains(s0.push(p1), p2);
        lemma_push_contains(s0.push(p1).push(p2), p3);
        lemma_push_contains(s0.push(p1).push(p2).push(p3), p4);
        assert(squares@ == s0.push(p1).push(p2).push(p3).push(p4));
        if s0.no_duplicates() && 0 < num && forall|c: Point2D| #[trigger]
            s0.contains(c) ==> !mirrored(center, num as int, 0, c) {
            assert(mirrored(center, num as int, 0, p1) && mirrored(center, num as int, 0, p2)
                && mirrored(center, num as int, 0, p3) && mirrored(center, num as int, 0, p4));
            lemma_push_no_duplicates(s0, p1);
            lemma_push_no_duplicates(s0.push(p1), p2);
            lemma_push_no_duplicates(s0.push(p1).push(p2), p3);
            lemma_push_no_duplicates(s0.push(p1).push(p2).push(p3), p4);
        }
        assert forall|c: Point2D| #![trigger squares@.contains(c)]
            squares@.contains(c) <==> (s0.contains(c) || mirrored(center, num as int, 0, c)) by {
            if mirrored(center, num as int, 0, c) {
                if abs(c.x - center.x) == num && abs(c.y - center.y) == 0 {
                    if c.x - center.x == num {
                        assert(c == p1);
                    } else {
                        assert(c == p2);
                    }
                } else {
                    if c.y - center.y == num {
                        assert(c == p3);
                    } else {
                        assert(c == p4);
                    }
                }
            }
        }
    }
}

/// The larger of `|c.x - center.x|` and `|c.y - center.y|`.
pub open spec fn major(center: Point2D, c: Point2D) -> int {
    max(abs(c.x - center.x), abs(c.y - center.y))
}

/// The smaller of `|c.x - center.x|` and `|c.y - center.y|`.
pub open spec fn minor(center: Point2D, c: Point2D) -> int {
    min(abs(c.x - center.x), abs(c.y - center.y))
}

/// Membership in the disk, read off the larger and smaller offsets.
proof fn lemma_disk_by_offsets(center: Point2D, c: Point2D, n: int)
    ensures
        in_disk(center, n, c) == (sq(major(center, c)) + sq(minor(center, c)) <= n),
        major(center, c) >= minor(center, c) >= 0,
        sq(major(center, c)) <= sq(c.x - center.x) + sq(c.y - center.y),
{
    let u = c.x - center.x;
    let v = c.y - center.y;
    assert(sq(abs(u)) == sq(u) && sq(abs(v)) == sq(v)) by (nonlinear_arith);
    assert(sq(u) >= 0 && sq(v) >= 0) by (nonlinear_arith);
}

/// The lattice points within Euclidean distance `sqrt(radius_squared)` of
/// `center`: the square that fits inside the disk is filled outright; beyond
/// it, each point with `0 <= y < x` inside the disk is emitted with its seven
/// reflections.
fn integer_points_inside_sphere_helper(center: Point2D, radius_squared: isize, bound: Ghost<int>) -> (squares:
    Vec<Point2D>)
    requires
        0 <= radius_squared <= bound@ * bound@,
        ball_fits_2d(center, bound@),
    ensures
        forall|c: Point2D| #![trigger squares@.contains(c)]
            squares@.contains(c) <==> in_disk(center, radius_squared as int, c),
        squares@.no_duplicates(),
{
    let ghost n = radius_squared as int;
    let ghost b = bound@;
    proof {
        assert(4 * n + 4 <= isize::MAX) by (nonlinear_arith)
            requires
                0 <= n <= b * b,
                4 * (b + 1) * (b + 1) <= isize::MAX,
                b >= 0,
        ;
    }
    let radius = isqrt(radius_squared);
    let half = radius_squared / 2;
    let farthest_diagonal_integer = isqrt(half);
    let ghost r = radius as int;
    let ghost f = farthest_diagonal_integer as int;
    proof {
        assert(r <= b) by (nonlinear_arith)
            requires
                r * r <= n,
                n <= b * b,
                r >= 0,
                b >= 0,
        ;
        assert(2 * (f * f) <= n && 2 * ((f + 1) * (f + 1)) > n) by (nonlinear_arith)
            requires
                f * f <= half,
                half < (f + 1) * (f + 1),
                half == n / 2,
                n >= 0,
        ;
        assert(f <= r) by (nonlinear_arith)
            requires
                2 * (f * f) <= n,
                n < (r + 1) * (r + 1),
                f >= 0,
                r >= 0,
        ;
    }
    let mut squares: Vec<Point2D> = Vec::new();
    let mut x = -farthest_diagonal_integer;
    while x <= farthest_diagonal_integer
        invariant
            ball_fits_2d(center, b),
            b == bound@,
            0 <= f <= r <= b,
            f == farthest_diagonal_integer,
            -f <= x <= f + 1,
            forall|c: Point2D| #![trigger squares@.contains(c)]
                squares@.contains(c) <==> (-f <= c.x - center.x < x && abs(c.y - center.y) <= f),
            squares@.no_duplicates(),
        decreases f + 1 - x,
    {
        push_column(
            &mut squares,
            center.x + x,
            center.y,
            1,
            -farthest_diagonal_integer,
            farthest_diagonal_integer,
        );
        proof {
            assert forall|c: Point2D| #![trigger squares@.contains(c)]
                squares@.contains(c) <==> (-f <= c.x - center.x < x + 1 && abs(c.y - center.y)
                    <= f) by {
                assert(1 * (c.y - center.y) == c.y - center.y);
            }
        }
        x = x + 1;
    }
    let mut num = farthest_diagonal_integer + 1;
    while num <= radius
        invariant
            ball_fits_2d(center, b),
            b == bound@,
            0 <= f <= r <= b,
            f == farthest_diagonal_integer,
            r == radius,
            f + 1 <= num <= r + 1,
            forall|c: Point2D| #![trigger squares@.contains(c)]
                squares@.contains(c) <==> (major(center, c) <= f || (f < major(center, c) < num
                    && minor(center, c) == 0)),
            squares@.no_duplicates(),
        decreases r + 1 - num,
    {
        push_axes(&mut squares, center, num, bound);
        num = num + 1;
    }
    let mut x = farthest_diagonal_integer + 1;
    while x <= radius
        invariant
            ball_fits_2d(center, b),
            b == bound@,
            0 <= f <= r <= b,
            f == farthest_diagonal_integer,
            r == radius,
            n == radius_squared,
            0 <= n <= b * b,
            4 * n + 4 <= isize::MAX,
            r * r <= n < (r + 1) * (r + 1),
            2 * ((f + 1) * (f + 1)) > n,
            f + 1 <= x <= r + 1,
            forall|c: Point2D| #![trigger squares@.contains(c)]
                squares@.contains(c) <==> (major(center, c) <= f || (f < major(center, c) <= r
                    && minor(center, c) == 0) || (f < major(center, c) < x && minor(center, c)
                    >= 1 && in_disk(center, n, c))),
            squares@.no_duplicates(),
        decreases r + 1 - x,
    {
        proof {
            assert(0 <= x * x <= n && 2 * (x * x) > n) by (nonlinear_arith)
                requires
                    f + 1 <= x <= r,
                    r * r <= n,
                    2 * ((f + 1) * (f + 1)) > n,
                    f >= 0,
            ;
        }
        let rest = radius_squared - x * x;
        let top = isqrt(rest);
        proof {
            assert(top < x) by (nonlinear_arith)
                requires
                    top * top <= rest,
                    rest == n - x * x,
                    2 * (x * x) > n,
                    top >= 0,
                    x > 0,
            ;
        }
        let mut y: isize = 1;
        while y <= top
            invariant
                ball_fits_2d(center, b),
                b == bound@,
                0 <= f <= r <= b,
                f + 1 <= x <= r,
                0 <= top < x,
                1 <= y <= top + 1,
                forall|c: Point2D| #![trigger squares@.contains(c)]
                    squares@.contains(c) <==> (major(center, c) <= f || (f < major(center, c) <= r
                        && minor(center, c) == 0) || (f < major(center, c) < x && minor(center, c)
                        >= 1 && in_disk(center, n, c)) || (major(center, c) == x && 1 <= minor(
                        center,
                        c,
                    ) < y)),
                squares@.no_duplicates(),
            decreases top + 1 - y,
        {
            push_mirrored(&mut squares, center, x, y, bound);
            proof {
                assert forall|c: Point2D|
                    mirrored(center, x as int, y as int, c) == (major(center, c) == x && minor(
                        center,
                        c,
                    ) == y) by {}
            }
            y = y + 1;
        }
        proof {
            assert forall|c: Point2D| #![trigger squares@.contains(c)]
                squares@.contains(c) <==> (major(center, c) <= f || (f < major(center, c) <= r
                    && minor(center, c) == 0) || (f < major(center, c) < x + 1 && minor(center, c)
                    >= 1 && in_disk(center, n, c))) by {
                lemma_disk_by_offsets(center, c, n);
                let mm = minor(center, c);
                if major(center, c) == x && mm >= 1 {
                    assert((mm <= top) == (sq(mm) <= rest)) by (nonlinear_arith)
                        requires
                            top * top <= rest < (top + 1) * (top + 1),
                            mm >= 0,
                            top >= 0,
                    ;
                }
            }
        }
        x = x + 1;
    }
    proof {
        assert forall|c: Point2D| #![trigger squares@.contains(c)]
            squares@.contains(c) <==> in_disk(center, radius_squared as int, c) by {
            lemma_disk_by_offsets(center, c, n);
            let mj = major(center, c);
            let mm = minor(center, c);
            assert(mj <= f ==> sq(mj) + sq(mm) <= n) by (nonlinear_arith)
                requires
                    0 <= mm <= mj,
                    2 * (f * f) <= n,
            ;
            assert(mj <= r ==> sq(mj) <= n) by (nonlinear_arith)
                requires
                    0 <= mj,
                    r * r <= n,
            ;
            assert(sq(mj) <= n ==> mj <= r) by (nonlinear_arith)
                requires
                    0 <= mj,
                    n < (r + 1) * (r + 1),
                    r >= 0,
            ;
            assert(sq(0) == 0);
        }
    }
    squares
}

/// The lattice points within Euclidean distance `radius` of `center`.
pub fn integer_points_inside_circle(center: Point2D, radius: isize) -> (squares: Vec<Point2D>)
    requires
        ball_fits_2d(center, radius as int),
    ensures
        forall|c: Point2D| #![trigger squares@.contains(c)]
            squares@.contains(c) <==> in_disk(center, radius * radius, c),
        squares@.no_duplicates(),
{
    proof {
        assert(0 <= radius * radius <= 4 * (radius + 1) * (radius + 1)) by (nonlinear_arith)
            requires
                radius >= 0,
        ;
    }
    integer_points_inside_sphere_helper(center, radius * radius, Ghost(radius as int))
}

/// `c` is within Euclidean distance `sqrt(n)` of `center`.
pub open spec fn in_ball(center: Point3D, n: int, c: Point3D) -> bool {
    sq(c.x - center.x) + sq(c.y - center.y) + sq(c.z - center.z) <= n
}

/// `c` is within taxicab distance `r` of `center`.
pub open spec fn in_octahedron(center: Point3D, r: int, c: Point3D) -> bool {
    abs(c.x - center.x) + abs(c.y - center.y) + abs(c.z - center.z) <= r
}

/// `c` is within Chebyshev distance `r` of `center`.
pub open spec fn in_cube(center: Point3D, r: int, c: Point3D) -> bool {
    abs(c.x - center.x) <= r && abs(c.y - center.y) <= r && abs(c.z - center.z) <= r
}

/// A centre and radius whose every candidate point, and three times the
/// square of the radius, fit in a machine word.
pub open spec fn ball_fits_3d(center: Point3D, radius: int) -> bool {
    &&& ball_fits_2d(Point2D { x: center.x, y: center.y }, radius)
    &&& -isize::MAX < center.z - radius - 1
    &&& center.z + radius + 1 < isize::MAX
}

/// Appends `(x, y, base + w)` for `lo <= w <= hi`.
fn push_z_column(cubes: &mut Vec<Point3D>, x: isize, y: isize, base: isize, lo: isize, hi: isize)
    requires
        lo <= hi ==> isize::MIN < base + lo && base + hi < isize::MAX,
        hi < isize::MAX,
    ensures
        forall|c: Point3D| #![trigger final(cubes)@.contains(c)]
            final(cubes)@.contains(c) <==> (old(cubes)@.contains(c) || (c.x == x && c.y == y && lo
                <= c.z - base <= hi)),
{
    let mut w = lo;
    while w <= hi
        invariant
            lo <= hi ==> isize::MIN < base + lo && base + hi < isize::MAX,
            hi < isize::MAX,
            lo <= w,
            w <= hi + 1 || w == lo,
            forall|c: Point3D| #![trigger cubes@.contains(c)]
                cubes@.contains(c) <==> (old(cubes)@.contains(c) || (c.x == x && c.y == y && lo
                    <= c.z - base < w)),
        decreases hi + 1 - w,
    {
        let ghost prev = cubes@;
        let p = Point3D { x: x, y: y, z: base + w };
        cubes.push(p);
        proof {
            lemma_push_contains(prev, p);
        }
        w = w + 1;
    }
}

/// Appends the points of the cube around `center` whose x offset is `x`.
fn push_cube_slice(cubes: &mut Vec<Point3D>, center: Point3D, x: isize, radius: isize)
    requires
        ball_fits_3d(center, radius as int),
        -radius <= x <= radius,
    ensures
        forall|c: Point3D| #![trigger final(cubes)@.contains(c)]
            final(cubes)@.contains(c) <==> (old(cubes)@.contains(c) || (c.x - center.x == x
                && in_cube(center, radius as int, c))),
{
    let mut y = -radius;
    while y <= radius
        invariant
            ball_fits_3d(center, radius as int),
            -radius <= x <= radius,
            -radius <= y <= radius + 1,
            forall|c: Point3D| #![trigger cubes@.contains(c)]
                cubes@.contains(c) <==> (old(cubes)@.contains(c) || (c.x - center.x == x && -radius
                    <= c.y - center.y < y && in_cube(center, radius as int, c))),
        decreases radius + 1 - y,
    {
        push_z_column(cubes, center.x + x, center.y + y, center.z, -radius, radius);
        y = y + 1;
    }
}

/// The lattice points `c` with `max(|c.x - center.x|, |c.y - center.y|, |c.z - center.z|) <= radius`.
pub fn integer_points_inside_l_infinity_sphere(center: Point3D, radius: isize) -> (cubes: Vec<
    Point3D,
>)
    requires
        ball_fits_3d(center, radius as int),
    ensures
        forall|c: Point3D| #![trigger cubes@.contains(c)]
            cubes@.contains(c) <==> in_cube(center, radius as int, c),
{
    let mut cubes: Vec<Point3D> = Vec::new();
    let mut x = -radius;
    while x <= radius
        invariant
            ball_fits_3d(center, radius as int),
            -radius <= x <= radius + 1,
            forall|c: Point3D| #![trigger cubes@.contains(c)]
                cubes@.contains(c) <==> (-radius <= c.x - center.x < x && in_cube(
                    center,
                    radius as int,
                    c,
                )),
        decreases radius + 1 - x,
    {
        push_cube_slice(&mut cubes, center, x, radius);
        x = x + 1;
    }
    cubes
}

/// Appends the points of the octahedron around `center` whose x offset is `x`.
fn push_octahedron_slice(cubes: &mut Vec<Point3D>, center: Point3D, x: isize, radius: isize)
    requires
        ball_fits_3d(center, radius as int),
        -radius <= x <= radius,
    ensures
        forall|c: Point3D| #![trigger final(cubes)@.contains(c)]
            final(cubes)@.contains(c) <==> (old(cubes)@.contains(c) || (c.x - center.x == x
                && in_octahedron(center, radius as int, c))),
{
    let width = if x < 0 {
        radius + x
    } else {
        radius - x
    };
    let mut y = -width;
    while y <= width
        invariant
            ball_fits_3d(center, radius as int),
            -radius <= x <= radius,
            width == radius - abs(x as int),
            -width <= y <= width + 1,
            forall|c: Point3D| #![trigger cubes@.contains(c)]
                cubes@.contains(c) <==> (old(cubes)@.contains(c) || (c.x - center.x == x && -width
                    <= c.y - center.y < y && in_octahedron(center, radius as int, c))),
        decreases width + 1 - y,
    {
        let depth = if y < 0 {
            width + y
        } else {
            width - y
        };
        push_z_column(cubes, center.x + x, center.y + y, center.z, -depth, depth);
        y = y + 1;
    }
}

/// The lattice points `c` with `|c.x - center.x| + |c.y - center.y| + |c.z - center.z| <= radius`.
pub fn integer_points_inside_dimond_3d(center: Point3D, radius: isize) -> (cubes: Vec<Point3D>)
    requires
        ball_fits_3d(center, radius as int),
    ensures
        forall|c: Point3D| #![trigger cubes@.contains(c)]
            cubes@.contains(c) <==> in_octahedron(center, radius as int, c),
{
    let mut cubes: Vec<Point3D> = Vec::new();
    let mut x = -radius;
    while x <= radius
        invariant
            ball_fits_3d(center, radius as int),
            -radius <= x <= radius + 1,
            forall|c: Point3D| #![trigger cubes@.contains(c)]
                cubes@.contains(c) <==> (-radius <= c.x - center.x < x && in_octahedron(
                    center,
                    radius as int,
                    c,
                )),
        decreases radius + 1 - x,
    {
        push_octahedron_slice(&mut cubes, center, x, radius);
        x = x + 1;
    }
    cubes
}

/// Appends the points of the ball of squared radius `n` around `center`
/// whose x offset is `x`, testing every point of the bounding square.
fn push_ball_slice(cubes: &mut Vec<Point3D>, center: Point3D, x: isize, radius: isize, n: isize)
    requires
        ball_fits_3d(center, radius as int),
        -radius <= x <= radius,
        n == radius * radius,
    ensures
        forall|c: Point3D| #![trigger final(cubes)@.contains(c)]
            final(cubes)@.contains(c) <==> (old(cubes)@.contains(c) || (c.x - center.x == x
                && in_cube(center, radius as int, c) && in_ball(center, n as int, c))),
        (old(cubes)@.no_duplicates() && forall|c: Point3D| #[trigger]
            old(cubes)@.contains(c) ==> c.x - center.x != x) ==> final(cubes)@.no_duplicates(),
{
    let ghost fresh = old(cubes)@.no_duplicates() && forall|c: Point3D| #[trigger]
        old(cubes)@.contains(c) ==> c.x - center.x != x;
    proof {
        assert(0 <= x * x <= radius * radius && 3 * (radius * radius) <= 4 * (radius + 1) * (
        radius + 1)) by (nonlinear_arith)
            requires
                -radius <= x <= radius,
        ;
    }
    let xx = x * x;
    let mut y = -radius;
    while y <= radius
        invariant
            ball_fits_3d(center, radius as int),
            -radius <= x <= radius,
            n == radius * radius,
            xx == x * x,
            0 <= xx <= n,
            3 * n <= 4 * (radius + 1) * (radius + 1),
            -radius <= y <= radius + 1,
            forall|c: Point3D| #![trigger cubes@.contains(c)]
                cubes@.contains(c) <==> (old(cubes)@.contains(c) || (c.x - center.x == x && -radius
                    <= c.y - center.y < y && in_cube(center, radius as int, c) && in_ball(
                    center,
                    n as int,
                    c,
                ))),
            fresh == (old(cubes)@.no_duplicates() && forall|c: Point3D| #[trigger]
                old(cubes)@.contains(c) ==> c.x - center.x != x),
            fresh ==> cubes@.no_duplicates(),
        decreases radius + 1 - y,
    {
        proof {
            assert(0 <= y * y <= n) by (nonlinear_arith)
                requires
                    -radius <= y <= radius,
                    n == radius * radius,
            ;
        }
        let yy = y * y;
        let mut z = -radius;
        let ghost before = cubes@;
        while z <= radius
            invariant
                ball_fits_3d(center, radius as int),
                -radius <= x <= radius,
                -radius <= y <= radius,
                n == radius * radius,
                xx == x * x,
                yy == y * y,
                0 <= xx <= n,
                0 <= yy <= n,
                3 * n <= 4 * (radius + 1) * (radius + 1),
                -radius <= z <= radius + 1,
                forall|c: Point3D| #![trigger cubes@.contains(c)]
                    cubes@.contains(c) <==> (before.contains(c) || (c.x - center.x == x && c.y
                        - center.y == y && -radius <= c.z - center.z < z && sq(x as int) + sq(
                        y as int,
                    ) + sq(c.z - center.z) <= n)),
                fresh ==> before.no_duplicates(),
                fresh ==> forall|c: Point3D| #[trigger]
                    before.contains(c) ==> !(c.x - center.x == x && c.y - center.y == y),
                fresh ==> cubes@.no_duplicates(),
            decreases radius + 1 - z,
        {
            proof {
                assert(0 <= z * z <= n) by (nonlinear_arith)
                    requires
                        -radius <= z <= radius,
                        n == radius * radius,
                ;
            }
            if xx + yy + z * z <= n {
                let ghost prev = cubes@;
                let p = Point3D { x: center.x + x, y: center.y + y, z: center.z + z };
                proof {
                    if fresh {
                        assert(!prev.contains(p));
                        lemma_push_no_duplicates(prev, p);
                    }
                }
                cubes.push(p);
                proof {
                    lemma_push_contains(prev, p);
                }
            }
            z = z + 1;
        }
        y = y + 1;
    }
}

/// The lattice points within Euclidean distance `radius` of `center`, found
/// by testing every point of the bounding cube.
pub fn integer_points_inside_sphere_slow(center: Point3D, radius: isize) -> (cubes: Vec<Point3D>)
    requires
        ball_fits_3d(center, radius as int),
    ensures
        forall|c: Point3D| #![trigger cubes@.contains(c)]
            cubes@.contains(c) <==> in_ball(center, radius * radius, c),
        cubes@.no_duplicates(),
{
    let mut cubes: Vec<Point3D> = Vec::new();
    proof {
        assert(radius * radius <= 4 * (radius + 1) * (radius + 1)) by (nonlinear_arith)
            requires
                radius >= 0,
        ;
    }
    let n = radius * radius;
    let mut x = -radius;
    while x <= radius
        invariant
            ball_fits_3d(center, radius as int),
            n == radius * radius,
            -radius <= x <= radius + 1,
            forall|c: Point3D| #![trigger cubes@.contains(c)]
                cubes@.contains(c) <==> (-radius <= c.x - center.x < x && in_cube(
                    center,
                    radius as int,
                    c,
                ) && in_ball(center, n as int, c)),
            cubes@.no_duplicates(),
        decreases radius + 1 - x,
    {
        push_ball_slice(&mut cubes, center, x, radius, n);
        x = x + 1;
    }
    proof {
        assert forall|c: Point3D| #![trigger cubes@.contains(c)]
            cubes@.contains(c) <==> in_ball(center, radius * radius, c) by {
            let u = c.x - center.x;
            let v = c.y - center.y;
            let w = c.z - center.z;
            if in_ball(center, radius * radius, c) {
                assert(-radius <= u <= radius && -radius <= v <= radius && -radius <= w <= radius)
                    by (nonlinear_arith)
                    requires
                        u * u + v * v + w * w <= radius * radius,
                        radius >= 0,
                ;
            }
        }
    }
    cubes
}

/// Appends `(s.x, s.y, z)` for every `s` in `squares`.
pub(crate) fn push_layer(cubes: &mut Vec<Point3D>, squares: &Vec<Point2D>, z: isize)
    ensures
        forall|c: Point3D| #![trigger final(cubes)@.contains(c)]
            final(cubes)@.contains(c) <==> (old(cubes)@.contains(c) || (c.z == z
                && squares@.contains((Point2D { x: c.x, y: c.y })))),
        (old(cubes)@.no_duplicates() && squares@.no_duplicates() && forall|c: Point3D| #[trigger]
            old(cubes)@.contains(c) ==> c.z != z) ==> final(cubes)@.no_duplicates(),
{
    let ghost fresh = old(cubes)@.no_duplicates() && squares@.no_duplicates() && forall|c: Point3D|
        #[trigger] old(cubes)@.contains(c) ==> c.z != z;
    let mut i: usize = 0;
    while i < squares.len()
        invariant
            0 <= i <= squares@.len(),
            forall|c: Point3D| #![trigger cubes@.contains(c)]
                cubes@.contains(c) <==> (old(cubes)@.contains(c) || (c.z == z && exists|j: int|
                    0 <= j < i && #[trigger] squares@[j] == (Point2D { x: c.x, y: c.y }))),
            fresh == (old(cubes)@.no_duplicates() && squares@.no_duplicates() && forall|c: Point3D|
                #[trigger] old(cubes)@.contains(c) ==> c.z != z),
            fresh ==> cubes@.no_duplicates(),
        decreases squares@.len() - i,
    {
        let square = squares[i];
        let ghost prev = cubes@;
        let p = Point3D { x: square.x, y: square.y, z: z };
        proof {
            if fresh {
                if prev.contains(p) {
                    if !old(cubes)@.contains(p) {
                        let j = choose|j: int|
                            0 <= j < i && #[trigger] squares@[j] == (Point2D { x: p.x, y: p.y });
                        assert(squares@[j] == squares@[i as int]);
                    }
                }
                lemma_push_no_duplicates(prev, p);
            }
        }
        cubes.push(p);
        proof {
            lemma_push_contains(prev, p);
            assert forall|c: Point3D| #![trigger cubes@.contains(c)]
                cubes@.contains(c) <==> (old(cubes)@.contains(c) || (c.z == z && exists|j: int|
                    0 <= j < i + 1 && #[trigger] squares@[j] == (Point2D { x: c.x, y: c.y }))) by {
                if c == p {
                    assert(squares@[i as int] == (Point2D { x: c.x, y: c.y }));
                }
                if c.z == z && exists|j: int|
                    0 <= j < i + 1 && #[trigger] squares@[j] == (Point2D { x: c.x, y: c.y }) {
                    let j = choose|j: int|
                        0 <= j < i + 1 && #[trigger] squares@[j] == (Point2D { x: c.x, y: c.y });
                    if j == i {
                        assert(c == p);
                    }
                }
            }
        }
        i = i + 1;
    }
}

/// The lattice points within Euclidean distance `radius` of `center`, one
/// horizontal layer at a time: the layer at height `z` is the disk of squared
/// radius `radius * radius - z * z`.
pub fn integer_points_inside_sphere(center: Point3D, radius: isize) -> (cubes: Vec<Point3D>)
    requires
        ball_fits_3d(center, radius as int),
    ensures
        forall|c: Point3D| #![trigger cubes@.contains(c)]
            cubes@.contains(c) <==> in_ball(center, radius * radius, c),
        cubes@.no_duplicates(),
{
    let mut cubes: Vec<Point3D> = Vec::new();
    let flat = Point2D { x: center.x, y: center.y };
    proof {
        assert(0 <= radius * radius <= 4 * (radius + 1) * (radius + 1)) by (nonlinear_arith)
            requires
                radius >= 0,
        ;
    }
    let n = radius * radius;
    let squares = integer_points_inside_sphere_helper(flat, n, Ghost(radius as int));
    push_layer(&mut cubes, &squares, center.z);
    proof {
        assert forall|c: Point3D| #![trigger cubes@.contains(c)]
            cubes@.contains(c) <==> (abs(c.z - center.z) < 1 && in_ball(center, n as int, c)) by {
            assert(sq(0) == 0);
            assert(in_disk(flat, n as int, Point2D { x: c.x, y: c.y }) == (sq(c.x - center.x) + sq(
                c.y - center.y) <= n));
        }
    }
    let mut z: isize = 1;
    while z <= radius
        invariant
            ball_fits_3d(center, radius as int),
            flat == (Point2D { x: center.x, y: center.y }),
            n == radius * radius,
            1 <= z <= radius + 1,
            forall|c: Point3D| #![trigger cubes@.contains(c)]
                cubes@.contains(c) <==> (abs(c.z - center.z) < z && in_ball(center, n as int, c)),
            cubes@.no_duplicates(),
        decreases radius + 1 - z,
    {
        proof {
            assert(0 <= n - z * z <= radius * radius) by (nonlinear_arith)
                requires
                    1 <= z <= radius,
                    n == radius * radius,
            ;
        }
        let layer = integer_points_inside_sphere_helper(flat, n - z * z, Ghost(radius as int));
        push_layer(&mut cubes, &layer, center.z + z);
        push_layer(&mut cubes, &layer, center.z - z);
        proof {
            assert forall|c: Point3D| #![trigger cubes@.contains(c)]
                cubes@.contains(c) <==> (abs(c.z - center.z) < z + 1 && in_ball(
                    center,
                    n as int,
                    c,
                )) by {
                let w = c.z - center.z;
                assert(sq(w) == z * z <==> (w == z || w == -z)) by (nonlinear_arith)
                    requires
                        z >= 1,
                ;
            }
        }
        z = z + 1;
    }
    proof {
        assert forall|c: Point3D| #![trigger cubes@.contains(c)]
            cubes@.contains(c) <==> in_ball(center, radius * radius, c) by {
            let u = c.x - center.x;
            let v = c.y - center.y;
            let w = c.z - center.z;
            if in_ball(center, radius * radius, c) {
                assert(abs(w) <= radius) by (nonlinear_arith)
                    requires
                        u * u + v * v + w * w <= radius * radius,
                        radius >= 0,
                ;
            }
        }
    }
    cubes
}

/// The lattice points within Euclidean distance `radius` of `center`, by
/// exhaustive search; see `integer_points_inside_circle_slow`.
pub fn integer_points_inside_l_2_circle_slow(center: Point2D, radius: isize) -> (squares: Vec<
    Point2D,
>)
    requires
        ball_fits_2d(center, radius as int),
    ensures
        forall|c: Point2D| #![trigger squares@.contains(c)]
            squares@.contains(c) <==> in_disk(center, radius * radius, c),
        squares@.no_duplicates(),
{
    integer_points_inside_circle_slow(center, radius)
}

/// The lattice points within Euclidean distance `radius` of `center`; see
/// `integer_points_inside_circle`.
pub fn integer_points_inside_l_2_circle(center: Point2D, radius: isize) -> (squares: Vec<Point2D>)
    requires
        ball_fits_2d(center, radius as int),
    ensures
        forall|c: Point2D| #![trigger squares@.contains(c)]
            squares@.contains(c) <==> in_disk(center, radius * radius, c),
        squares@.no_duplicates(),
{
    integer_points_inside_circle(center, radius)
}

/// The lattice points within taxicab distance `radius` of `center`.
pub fn integer_points_inside_l_1_circle(center: Point2D, radius: isize) -> (squares: Vec<Point2D>)
    requires
        ball_fits_2d(center, radius as int),
    ensures
        forall|c: Point2D| #![trigger squares@.contains(c)]
            squares@.contains(c) <==> in_diamond(center, radius as int, c),
{
    integer_points_inside_dimond_2d(center, radius)
}

/// The lattice points within Chebyshev distance `radius` of `center`.
pub fn integer_points_inside_l_infinity_circle(center: Point2D, radius: isize) -> (squares: Vec<
    Point2D,
>)
    requires
        ball_fits_2d(center, radius as int),
    ensures
        forall|c: Point2D| #![trigger squares@.contains(c)]
            squares@.contains(c) <==> in_square(center, radius as int, c),
{
    integer_points_inside_square(center, radius)
}

/// The lattice points within Euclidean distance `radius` of `center`, by
/// exhaustive search; see `integer_points_inside_sphere_slow`.
pub fn integer_points_inside_l_2_sphere_slow(center: Point3D, radius: isize) -> (cubes: Vec<
    Point3D,
>)
    requires
        ball_fits_3d(center, radius as int),
    ensures
        forall|c: Point3D| #![trigger cubes@.contains(c)]
            cubes@.contains(c) <==> in_ball(center, radius * radius, c),
        cubes@.no_duplicates(),
{
    integer_points_inside_sphere_slow(center, radius)
}

/// The lattice points within Euclidean distance `radius` of `center`; see
/// `integer_points_inside_sphere`.
pub fn integer_points_inside_l_2_sphere(center: Point3D, radius: isize) -> (cubes: Vec<Point3D>)
    requires
        ball_fits_3d(center, radius as int),
    ensures
        forall|c: Point3D| #![trigger cubes@.contains(c)]
            cubes@.contains(c) <==> in_ball(center, radius * radius, c),
        cubes@.no_duplicates(),
{
    integer_points_inside_sphere(center, radius)
}

/// The lattice points within taxicab distance `radius` of `center`.
pub fn integer_points_inside_l_1_sphere(center: Point3D, radius: isize) -> (cubes: Vec<Point3D>)
    requires
        ball_fits_3d(center, radius as int),
    ensures
        forall|c: Point3D| #![trigger cubes@.contains(c)]
            cubes@.contains(c) <==> in_octahedron(center, radius as int, c),
{
    integer_points_inside_dimond_3d(center, radius)
}

/// The fast and the exhaustive enumerators of a disk return the same points,
/// each once: sorted, the two results are equal.
pub proof fn law_disk_matches_oracle(center: Point2D, radius: int, fast: Seq<Point2D>, slow: Seq<Point2D>)
    requires
        forall|c: Point2D| #[trigger] fast.contains(c) <==> in_disk(center, radius * radius, c),
        forall|c: Point2D| #[trigger] slow.contains(c) <==> in_disk(center, radius * radius, c),
        fast.no_duplicates(),
        slow.no_duplicates(),
    ensures
        fast.to_multiset() == slow.to_multiset(),
{
    lemma_same_distinct_elements(fast, slow);
}

/// The fast and the exhaustive enumerators of a ball return the same points,
/// each once: sorted, the two results are equal.
pub proof fn law_ball_matches_oracle(center: Point3D, radius: int, fast: Seq<Point3D>, slow: Seq<Point3D>)
    requires
        forall|c: Point3D| #[trigger] fast.contains(c) <==> in_ball(center, radius * radius, c),
        forall|c: Point3D| #[trigger] slow.contains(c) <==> in_ball(center, radius * radius, c),
        fast.no_duplicates(),
        slow.no_duplicates(),
    ensures
        fast.to_multiset() == slow.to_multiset(),
{
    lemma_same_distinct_elements(fast, slow);
}

/// Two duplicate-free sequences with the same elements have the same multiset.
pub proof fn lemma_same_distinct_elements<T>(a: Seq<T>, b: Seq<T>)
    requires
        a.no_duplicates(),
        b.no_duplicates(),
        forall|c: T| #[trigger] a.contains(c) <==> b.contains(c),
    ensures
        a.to_multiset() == b.to_multiset(),
{
    a.lemma_multiset_has_no_duplicates();
    b.lemma_multiset_has_no_duplicates();
    assert forall|c: T| a.to_multiset().count(c) == b.to_multiset().count(c) by {
        vstd::seq_lib::to_multiset_contains(a, c);
        vstd::seq_lib::to_multiset_contains(b, c);
        if a.contains(c) {
            assert(b.contains(c));
        } else {
            assert(!b.contains(c));
        }
    }
    assert(a.to_multiset() =~= b.to_multiset());
}

} // verus!
