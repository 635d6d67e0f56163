//! Rasterising plane segments: the lattice points on a segment, and the cells
//! that a segment thickened under the L-infinity metric touches.
use vstd::prelude::*;
use vstd::arithmetic::div_mod::*;
use vstd::arithmetic::mul::*;
use crate::gcd::{gcd, gcd_spec, lemma_gcd_divides, lemma_gcd_greatest, lemma_gcd_scale};
use crate::point::{Point2D, min, max};
use crate::rational::{
    abs, canon_den, canon_gcd, canon_num, ceil_div, floor_div, lemma_canon, lemma_canon_floor_ceil,
    lemma_canon_same_value, Rational,
};

verus! {

/// Coordinates and spans small enough that every intermediate value of the
/// rasterisers fits in a machine word.
pub open spec fn segment_fits(p1: Point2D, p2: Point2D) -> bool {
    &&& -isize::MAX < p1.x < isize::MAX
    &&& -isize::MAX < p1.y < isize::MAX
    &&& -isize::MAX < p2.x < isize::MAX
    &&& -isize::MAX < p2.y < isize::MAX
    &&& 16 * (abs(p2.x - p1.x) + 1) * (abs(p2.y - p1.y) + 1) <= isize::MAX
}

/// `c` lies on the closed segment from `p1` to `p2`: collinear with the
/// endpoints and within their bounding box.
pub open spec fn on_segment(p1: Point2D, p2: Point2D, c: Point2D) -> bool {
    &&& (c.x - p1.x) * (p2.y - p1.y) == (c.y - p1.y) * (p2.x - p1.x)
    &&& min(p1.x as int, p2.x as int) <= c.x <= max(p1.x as int, p2.x as int)
    &&& min(p1.y as int, p2.y as int) <= c.y <= max(p1.y as int, p2.y as int)
}

/// In coordinates where a segment runs from `(0, 0)` to `(dx, dy)` with
/// `dx > 0` and `dy >= 0`: the open square of half-side `p / q` centred on
/// `(u, v)` reaches above the lowest point of the segment under it.
pub open spec fn band_low(dx: int, dy: int, p: int, q: int, u: int, v: int) -> bool {
    (v * q + p) * dx > dy * max(0, u * q - p)
}

/// ... and reaches below the highest point of the segment under it.
pub open spec fn band_high(dx: int, dy: int, p: int, q: int, u: int, v: int) -> bool {
    (v * q - p) * dx < dy * min(dx * q, u * q + p)
}

/// The open square of half-side `p / q` centred on `(u, v)` meets the closed
/// segment from `(0, 0)` to `(dx, dy)`.
pub open spec fn in_band(dx: int, dy: int, p: int, q: int, u: int, v: int) -> bool {
    &&& 0 <= u <= dx
    &&& band_low(dx, dy, p, q, u, v)
    &&& band_high(dx, dy, p, q, u, v)
}

/// The cell centred on `c`, an open square of half-side `p / q` (with
/// `0 < p / q <= 1 / 2`), meets the closed segment from `p1` to `p2`.
pub open spec fn cell_touched(p1: Point2D, p2: Point2D, p: int, q: int, c: Point2D) -> bool {
    if p1.x == p2.x {
        c.x == p1.x && min(p1.y as int, p2.y as int) <= c.y <= max(p1.y as int, p2.y as int)
    } else {
        let l = if p1.x < p2.x {
            p1
        } else {
            p2
        };
        let r = if p1.x < p2.x {
            p2
        } else {
            p1
        };
        let sgn: int = if r.y >= l.y {
            1
        } else {
            -1
        };
        in_band(r.x - l.x, sgn * (r.y - l.y), p, q, c.x - l.x, sgn * (c.y - l.y))
    }
}

/// Appends the cells `(x, base + sgn * v)` for `lo <= v <= hi`.
pub(crate) fn push_column(squares: &mut Vec<Point2D>, x: isize, base: isize, sgn: isize, lo: isize, hi: isize)
    requires
        sgn == 1 || sgn == -1,
        hi < isize::MAX,
        lo > isize::MIN,
        lo <= hi ==> isize::MIN < base + sgn * lo < isize::MAX,
        lo <= hi ==> isize::MIN < base + sgn * hi < isize::MAX,
    ensures
        forall|c: Point2D|
            #![trigger final(squares)@.contains(c)]
            final(squares)@.contains(c) <==> (old(squares)@.contains(c) || (c.x == x && lo
                <= sgn * (c.y - base) <= hi)),
        (old(squares)@.no_duplicates() && forall|c: Point2D| #[trigger]
            old(squares)@.contains(c) ==> !(c.x == x && lo <= sgn * (c.y - base) <= hi))
            ==> final(squares)@.no_duplicates(),
        (old(squares)@.len() == 0 && sgn == 1) ==> forall|i: int, j: int|
            0 <= i < j < final(squares)@.len() ==> final(squares)@[i].y < final(squares)@[j].y,
{
    let ghost fresh = old(squares)@.no_duplicates() && forall|c: Point2D| #[trigger]
        old(squares)@.contains(c) ==> !(c.x == x && lo <= sgn * (c.y - base) <= hi);
    let ghost upward = old(squares)@.len() == 0 && sgn == 1;
    let mut v = lo;
    while v <= hi
        invariant
            sgn == 1 || sgn == -1,
            hi < isize::MAX,
            lo <= hi ==> isize::MIN < base + sgn * lo < isize::MAX,
            lo <= hi ==> isize::MIN < base + sgn * hi < isize::MAX,
            lo > isize::MIN,
            lo <= v,
            v <= hi + 1 || v == lo,
            forall|c: Point2D|
                #![trigger squares@.contains(c)]
                squares@.contains(c) <==> (old(squares)@.contains(c) || (c.x == x && lo <= sgn * (
                c.y - base) < v)),
            fresh == (old(squares)@.no_duplicates() && forall|c: Point2D| #[trigger]
                old(squares)@.contains(c) ==> !(c.x == x && lo <= sgn * (c.y - base) <= hi)),
            fresh ==> squares@.no_duplicates(),
            upward == (old(squares)@.len() == 0 && sgn == 1),
            upward ==> forall|i: int, j: int|
                0 <= i < j < squares@.len() ==> squares@[i].y < squares@[j].y,
        decreases hi + 1 - v,
    {
        let ghost prev = squares@;
        proof {
            assert(isize::MIN < sgn * v <= isize::MAX && isize::MIN < base + sgn * v < isize::MAX)
                by (nonlinear_arith)
                requires
                    lo > isize::MIN,
                    hi < isize::MAX,
                    sgn == 1 || sgn == -1,
                    lo <= v <= hi,
                    isize::MIN < base + sgn * lo < isize::MAX,
                    isize::MIN < base + sgn * hi < isize::MAX,
            ;
        }
        let step = sgn * v;
        let p = Point2D { x: x, y: base + step };
        proof {
            assert(sgn * (p.y - base) == v) by (nonlinear_arith)
                requires
                    p.y == base + sgn * v,
                    sgn == 1 || sgn == -1,
            ;
            if fresh {
                assert(!prev.contains(p));
                crate::ball::lemma_push_no_duplicates(prev, p);
            }
            if upward {
                assert forall|i: int| 0 <= i < prev.len() implies prev[i].y < p.y by {
                    assert(prev.contains(prev[i]));
                }
            }
        }
        squares.push(p);
        proof {
            if upward {
                assert forall|i: int, j: int|
                    0 <= i < j < squares@.len() implies squares@[i].y < squares@[j].y by {
                    if j < prev.len() {
                        assert(squares@[i] == prev[i] && squares@[j] == prev[j]);
                    } else {
                        assert(squares@[i] == prev[i] && squares@[j] == p);
                    }
                }
            }
        }
        proof {
            assert forall|c: Point2D| #[trigger]
                squares@.contains(c) <==> (old(squares)@.contains(c) || (c.x == x && lo <= sgn * (
                c.y - base) < v + 1)) by {
                if squares@.contains(c) {
                    let i = choose|i: int| 0 <= i < squares@.len() && squares@[i] == c;
                    if i < prev.len() {
                        assert(prev.contains(c));
                    } else {
                        assert(c == p);
                        assert(sgn * (c.y - base) == v) by (nonlinear_arith)
                            requires
                                c.y == base + sgn * v,
                                sgn == 1 || sgn == -1,
                        ;
                    }
                }
                if old(squares)@.contains(c) {
                    assert(prev.contains(c));
                    let i = choose|i: int| 0 <= i < prev.len() && prev[i] == c;
                    assert(squares@[i] == c);
                }
                if c.x == x && lo <= sgn * (c.y - base) < v + 1 {
                    if sgn * (c.y - base) == v {
                        assert(c.y == base + sgn * v) by (nonlinear_arith)
                            requires
                                sgn * (c.y - base) == v,
                                sgn == 1 || sgn == -1,
                        ;
                        assert(squares@[squares@.len() - 1] == c);
                    } else {
                        assert(prev.contains(c));
                        let i = choose|i: int| 0 <= i < prev.len() && prev[i] == c;
                        assert(squares@[i] == c);
                    }
                }
            }
        }
        v = v + 1;
    }
}

/// Appends the cells `(v, y)` for `lo <= v <= hi`.
pub(crate) fn push_row(squares: &mut Vec<Point2D>, y: isize, lo: isize, hi: isize)
    requires
        hi < isize::MAX,
    ensures
        forall|c: Point2D|
            #![trigger final(squares)@.contains(c)]
            final(squares)@.contains(c) <==> (old(squares)@.contains(c) || (c.y == y && lo <= c.x
                <= hi)),
        (old(squares)@.no_duplicates() && forall|c: Point2D| #[trigger]
            old(squares)@.contains(c) ==> !(c.y == y && lo <= c.x <= hi))
            ==> final(squares)@.no_duplicates(),
        old(squares)@.len() == 0 ==> forall|i: int, j: int|
            0 <= i < j < final(squares)@.len() ==> final(squares)@[i].x < final(squares)@[j].x,
{
    let ghost fresh = old(squares)@.no_duplicates() && forall|c: Point2D| #[trigger]
        old(squares)@.contains(c) ==> !(c.y == y && lo <= c.x <= hi);
    let ghost rightward = old(squares)@.len() == 0;
    let mut v = lo;
    while v <= hi
        invariant
            hi < isize::MAX,
            lo <= v,
            v <= hi + 1 || v == lo,
            forall|c: Point2D|
                #![trigger squares@.contains(c)]
                squares@.contains(c) <==> (old(squares)@.contains(c) || (c.y == y && lo <= c.x
                    < v)),
            fresh == (old(squares)@.no_duplicates() && forall|c: Point2D| #[trigger]
                old(squares)@.contains(c) ==> !(c.y == y && lo <= c.x <= hi)),
            fresh ==> squares@.no_duplicates(),
            rightward == (old(squares)@.len() == 0),
            rightward ==> forall|i: int, j: int|
                0 <= i < j < squares@.len() ==> squares@[i].x < squares@[j].x,
        decreases hi + 1 - v,
    {
        let ghost prev = squares@;
        let p = Point2D { x: v, y: y };
        proof {
            if fresh {
                assert(!prev.contains(p));
                crate::ball::lemma_push_no_duplicates(prev, p);
            }
            if rightward {
                assert forall|i: int| 0 <= i < prev.len() implies prev[i].x < p.x by {
                    assert(prev.contains(prev[i]));
                }
            }
        }
        squares.push(p);
        proof {
            if rightward {
                assert forall|i: int, j: int|
                    0 <= i < j < squares@.len() implies squares@[i].x < squares@[j].x by {
                    if j < prev.len() {
                        assert(squares@[i] == prev[i] && squares@[j] == prev[j]);
                    } else {
                        assert(squares@[i] == prev[i] && squares@[j] == p);
                    }
                }
            }
            assert forall|c: Point2D| #[trigger]
                squares@.contains(c) <==> (old(squares)@.contains(c) || (c.y == y && lo <= c.x < v
                    + 1)) by {
                if squares@.contains(c) {
                    let i = choose|i: int| 0 <= i < squares@.len() && squares@[i] == c;
                    if i < prev.len() {
                        assert(prev.contains(c));
                    }
                }
                if old(squares)@.contains(c) {
                    assert(prev.contains(c));
                    let i = choose|i: int| 0 <= i < prev.len() && prev[i] == c;
                    assert(squares@[i] == c);
                }
                if c.y == y && lo <= c.x < v + 1 {
                    if c.x == v {
                        assert(squares@[squares@.len() - 1] == c);
                    } else {
                        assert(prev.contains(c));
                        let i = choose|i: int| 0 <= i < prev.len() && prev[i] == c;
                        assert(squares@[i] == c);
                    }
                }
            }
        }
        v = v + 1;
    }
}

/// What `segment_fits` bounds, spelled out.
pub proof fn lemma_segment_fits(p1: Point2D, p2: Point2D)
    requires
        segment_fits(p1, p2),
    ensures
        16 * (abs(p2.x - p1.x) + 1) <= isize::MAX,
        16 * (abs(p2.y - p1.y) + 1) <= isize::MAX,
        16 * (abs(p2.x - p1.x) + 1) * (abs(p2.y - p1.y) + 1) <= isize::MAX,
{
    let a = abs(p2.x - p1.x) + 1;
    let b = abs(p2.y - p1.y) + 1;
    assert(16 * a <= 16 * a * b && 16 * b <= 16 * a * b) by (nonlinear_arith)
        requires
            a >= 1,
            b >= 1,
    ;
}

/// `c` is `l + j * (rr, rs)`.
pub open spec fn stepped(l: Point2D, rr: int, rs: int, j: int, c: Point2D) -> bool {
    c.x == l.x + j * rr && c.y == l.y + j * rs
}

/// Swapping the endpoints does not change which points lie on the segment.
pub proof fn lemma_on_segment_symmetric(p1: Point2D, p2: Point2D, c: Point2D)
    ensures
        on_segment(p1, p2, c) == on_segment(p2, p1, c),
{
    assert(((c.x - p1.x) * (p2.y - p1.y) == (c.y - p1.y) * (p2.x - p1.x)) == ((c.x - p2.x) * (
    p1.y - p2.y) == (c.y - p2.y) * (p1.x - p2.x))) by (nonlinear_arith);
}

/// For a segment that is neither vertical nor horizontal, running from `l` to
/// `r` with `l.x < r.x`: its lattice points are `l + j * (rr, rs)` for
/// `0 <= j <= g`, where `g` is the gcd of the run and the rise and
/// `(rr, rs)` is `(run, rise) / g`.
proof fn lemma_lattice_points(l: Point2D, r: Point2D, g: int, rr: int, rs: int, c: Point2D)
    requires
        l.x < r.x,
        l.y != r.y,
        g == gcd_spec((r.x - l.x) as nat, abs(r.y - l.y) as nat),
        r.x - l.x == g * rr,
        r.y - l.y == g * rs,
    ensures
        g > 0,
        on_segment(l, r, c) <==> exists|j: int|
            0 <= j <= g && #[trigger] stepped(l, rr, rs, j, c),
{
    let run = r.x - l.x;
    let rise = r.y - l.y;
    lemma_gcd_divides(run as nat, abs(rise) as nat);
    assert(rr > 0) by (nonlinear_arith)
        requires
            run == g * rr,
            run > 0,
            g > 0,
    ;
    assert(abs(rise) == g * abs(rs)) by (nonlinear_arith)
        requires
            rise == g * rs,
            g > 0,
    ;
    lemma_gcd_scale(rr as nat, abs(rs) as nat, g as nat);
    assert(gcd_spec(rr as nat, abs(rs) as nat) == 1) by (nonlinear_arith)
        requires
            g == g * gcd_spec(rr as nat, abs(rs) as nat),
            g > 0,
    ;
    let u = c.x - l.x;
    let v = c.y - l.y;
    if on_segment(l, r, c) {
        assert(u * rise == v * run);
        assert(u * rs == v * rr) by (nonlinear_arith)
            requires
                u * rise == v * run,
                rise == g * rs,
                run == g * rr,
                g > 0,
        ;
        assert(0 <= u <= run);
        if u == 0 {
            assert(v == 0) by (nonlinear_arith)
                requires
                    0 * rs == v * rr,
                    rr > 0,
            ;
            assert(stepped(l, rr, rs, 0, c));
        } else {
            assert(u * abs(rs) == abs(v) * rr) by (nonlinear_arith)
                requires
                    u * rs == v * rr,
                    u > 0,
                    rr > 0,
            ;
            lemma_gcd_scale(rr as nat, abs(rs) as nat, u as nat);
            lemma_mod_multiples_vanish(u, 0, rr);
            lemma_mod_multiples_vanish(abs(v), 0, rr);
            lemma_small_mod(0, rr as nat);
            assert((u * rr) % rr == 0) by {
                lemma_mul_is_commutative(u, rr);
            }
            assert((abs(v) * rr) % rr == 0) by {
                lemma_mul_is_commutative(abs(v), rr);
            }
            lemma_gcd_greatest((u * rr) as nat, (u * abs(rs)) as nat, rr);
            assert(u * 1 == u);
            lemma_fundamental_div_mod(u, rr);
            let j = u / rr;
            assert(u == rr * j);
            assert(0 <= j <= g && v == j * rs) by (nonlinear_arith)
                requires
                    u == rr * j,
                    0 < u <= run,
                    run == g * rr,
                    rr > 0,
                    u * rs == v * rr,
            ;
            assert(j * rr == rr * j) by (nonlinear_arith);
            assert(stepped(l, rr, rs, j, c));
        }
    }
    if exists|j: int| 0 <= j <= g && #[trigger] stepped(l, rr, rs, j, c) {
        let j = choose|j: int| 0 <= j <= g && #[trigger] stepped(l, rr, rs, j, c);
        assert(u * rise == v * run && 0 <= u <= run) by (nonlinear_arith)
            requires
                u == j * rr,
                v == j * rs,
                rise == g * rs,
                run == g * rr,
                0 <= j <= g,
                rr > 0,
        ;
        assert(min(l.y as int, r.y as int) <= c.y <= max(l.y as int, r.y as int)) by (
        nonlinear_arith)
            requires
                v == j * rs,
                rise == g * rs,
                0 <= j <= g,
                v == c.y - l.y,
                rise == r.y - l.y,
        ;
    }
}

/// The lattice points on the closed segment from `point1` to `point2`, from the
/// left end to the right one (bottom to top for a vertical segment), one per
/// step of the smallest integer direction vector.
pub fn integer_points_on_line_segment_2d(point1: Point2D, point2: Point2D) -> (squares: Vec<
    Point2D,
>)
    requires
        segment_fits(point1, point2),
    ensures
        forall|c: Point2D|
            #![trigger squares@.contains(c)]
            squares@.contains(c) <==> on_segment(point1, point2, c),
        squares@.no_duplicates(),
        forall|i: int, j: int|
            0 <= i < j < squares@.len() ==> if point1.x == point2.x {
                squares@[i].y < squares@[j].y
            } else {
                squares@[i].x < squares@[j].x
            },
{
    let mut squares: Vec<Point2D> = Vec::new();
    if point1.x == point2.x {
        let lo = if point1.y < point2.y {
            point1.y
        } else {
            point2.y
        };
        let hi = if point1.y < point2.y {
            point2.y
        } else {
            point1.y
        };
        push_column(&mut squares, point1.x, 0, 1, lo, hi);
        proof {
            assert forall|c: Point2D| #[trigger]
                squares@.contains(c) <==> on_segment(point1, point2, c) by {
                assert(1 * (c.y - 0) == c.y);
                assert(squares@.contains(c) <==> (c.x == point1.x && lo <= c.y <= hi));
                assert(on_segment(point1, point2, c) ==> c.x == point1.x);
                if c.x == point1.x {
                    assert((c.x - point1.x) * (point2.y - point1.y) == 0);
                    assert((c.y - point1.y) * (point2.x - point1.x) == 0);
                }
            }
        }
        return squares;
    }
    let left_point = if point1.x < point2.x {
        point1
    } else {
        point2
    };
    let right_point = if point1.x < point2.x {
        point2
    } else {
        point1
    };
    proof {
        assert forall|c: Point2D|
            on_segment(point1, point2, c) == #[trigger] on_segment(left_point, right_point, c) by {
            lemma_on_segment_symmetric(point1, point2, c);
        }
    }
    if left_point.y == right_point.y {
        push_row(&mut squares, left_point.y, left_point.x, right_point.x);
        proof {
            assert forall|c: Point2D| #[trigger]
                squares@.contains(c) <==> on_segment(point1, point2, c) by {
                if c.y == left_point.y {
                    assert((c.x - left_point.x) * (right_point.y - left_point.y) == 0 && (c.y
                        - left_point.y) * (right_point.x - left_point.x) == 0) by (nonlinear_arith)
                        requires
                            c.y == left_point.y,
                            right_point.y == left_point.y,
                    ;
                }
                if on_segment(left_point, right_point, c) {
                    assert((c.y - left_point.y) * (right_point.x - left_point.x) == 0);
                    assert(c.y == left_point.y) by (nonlinear_arith)
                        requires
                            (c.y - left_point.y) * (right_point.x - left_point.x) == 0,
                            right_point.x - left_point.x > 0,
                    ;
                }
            }
        }
        return squares;
    }
    proof {
        lemma_segment_fits(point1, point2);
    }
    let rise = right_point.y - left_point.y;
    let run = (right_point.x - left_point.x) as usize;
    let abs_rise: usize = if rise < 0 {
        (-rise) as usize
    } else {
        rise as usize
    };
    let common_factor = gcd(run, abs_rise);
    let reduced_run = run / common_factor;
    let reduced_abs_rise = abs_rise / common_factor;
    let reduced_rise: isize = if rise < 0 {
        -(reduced_abs_rise as isize)
    } else {
        reduced_abs_rise as isize
    };
    let ghost g = common_factor as int;
    proof {
        lemma_fundamental_div_mod(run as int, g);
        lemma_fundamental_div_mod(abs_rise as int, g);
        assert(run == g * reduced_run);
        assert(abs_rise == g * reduced_abs_rise);
        if rise < 0 {
            assert(rise == g * reduced_rise) by (nonlinear_arith)
                requires
                    rise == -abs_rise,
                    abs_rise == g * reduced_abs_rise,
                    reduced_rise == -reduced_abs_rise,
            ;
        }
        assert(rise == g * reduced_rise);

        assert(reduced_run > 0) by (nonlinear_arith)
            requires
                run == g * reduced_run,
                run > 0,
                g > 0,
        ;
        assert(g <= run) by (nonlinear_arith)
            requires
                run == g * reduced_run,
                reduced_run > 0,
                g > 0,
        ;
        lemma_div_multiples_vanish(g, reduced_run as int);
        assert(run / reduced_run == g) by {
            lemma_mul_is_commutative(g, reduced_run as int);
        }
    }
    let count = run / reduced_run;
    let mut num: usize = 0;
    while num <= count
        invariant
            count == g,
            g > 0,
            run == g * reduced_run,
            rise == g * reduced_rise,
            reduced_run > 0,
            g <= run,
            16 * (run + 1) <= isize::MAX,
            -isize::MAX < left_point.x < isize::MAX,
            -isize::MAX < left_point.y < isize::MAX,
            -isize::MAX < right_point.x < isize::MAX,
            -isize::MAX < right_point.y < isize::MAX,
            rise == right_point.y - left_point.y,
            left_point.x < right_point.x,
            run == right_point.x - left_point.x,
            num <= count + 1,
            forall|c: Point2D|
                #![trigger squares@.contains(c)]
                squares@.contains(c) <==> exists|j: int|
                    0 <= j < num && #[trigger] stepped(left_point, reduced_run as int, reduced_rise as int, j, c),
            squares@.no_duplicates(),
            forall|i: int, j: int| 0 <= i < j < squares@.len() ==> squares@[i].x < squares@[j].x,
        decreases count + 1 - num,
    {
        proof {
            assert(0 <= num * reduced_run <= run) by (nonlinear_arith)
                requires
                    num <= g,
                    run == g * reduced_run,
                    reduced_run > 0,
            ;
            assert(min(0, rise as int) <= reduced_rise * num <= max(0, rise as int)) by (
            nonlinear_arith)
                requires
                    0 <= num <= g,
                    rise == g * reduced_rise,
            ;
        }
        let ghost prev = squares@;
        let p = Point2D {
            x: left_point.x + ((num * reduced_run) as isize),
            y: left_point.y + reduced_rise * (num as isize),
        };
        proof {
            if prev.contains(p) {
                let j = choose|j: int|
                    0 <= j < num && #[trigger] stepped(left_point, reduced_run as int, reduced_rise as int, j, p);
                assert(j * reduced_run < num * reduced_run) by (nonlinear_arith)
                    requires
                        j < num,
                        reduced_run > 0,
                ;
            }
            crate::ball::lemma_push_no_duplicates(prev, p);
            assert forall|i: int| 0 <= i < prev.len() implies prev[i].x < p.x by {
                assert(prev.contains(prev[i]));
                let j = choose|j: int|
                    0 <= j < num && #[trigger] stepped(left_point, reduced_run as int, reduced_rise as int, j, prev[i]);
                assert(j * reduced_run < num * reduced_run) by (nonlinear_arith)
                    requires
                        j < num,
                        reduced_run > 0,
                ;
            }
        }
        squares.push(p);
        proof {
            assert forall|i: int, j: int|
                0 <= i < j < squares@.len() implies squares@[i].x < squares@[j].x by {
                if j < prev.len() {
                    assert(squares@[i] == prev[i] && squares@[j] == prev[j]);
                } else {
                    assert(squares@[i] == prev[i] && squares@[j] == p);
                }
            }
            assert forall|c: Point2D| #[trigger]
                squares@.contains(c) <==> exists|j: int|
                    0 <= j < num + 1 && #[trigger] stepped(left_point, reduced_run as int, reduced_rise as int, j, c) by {
                if squares@.contains(c) {
                    let i = choose|i: int| 0 <= i < squares@.len() && squares@[i] == c;
                    if i < prev.len() {
                        assert(prev.contains(c));
                    } else {
                        assert(c == p);
                        assert(reduced_rise * num == num * reduced_rise) by (nonlinear_arith);
                        assert(stepped(left_point, reduced_run as int, reduced_rise as int, num as int, c));
                    }
                }
                if exists|j: int|
                    0 <= j < num + 1 && #[trigger] stepped(left_point, reduced_run as int, reduced_rise as int, j, c) {
                    let j = choose|j: int|
                        0 <= j < num + 1 && #[trigger] stepped(left_point, reduced_run as int, reduced_rise as int, j, c);
                    if j == num {
                        assert(reduced_rise * num == num * reduced_rise) by (nonlinear_arith);
                        assert(c == p);
                        assert(squares@[squares@.len() - 1] == c);
                    } else {
                        assert(prev.contains(c));
                        let i = choose|i: int| 0 <= i < prev.len() && prev[i] == c;
                        assert(squares@[i] == c);
                    }
                }
            }
        }
        num = num + 1;
    }
    proof {
        assert forall|c: Point2D| #[trigger]
            squares@.contains(c) <==> on_segment(point1, point2, c) by {
            lemma_lattice_points(left_point, right_point, g, reduced_run as int, reduced_rise as int, c);
            if exists|j: int|
                0 <= j <= g && #[trigger] stepped(left_point, reduced_run as int, reduced_rise as int, j, c) {
                let j = choose|j: int|
                    0 <= j <= g && #[trigger] stepped(left_point, reduced_run as int, reduced_rise as int, j, c);
                assert(0 <= j < num);
            }
        }
    }
    squares
}

/// For `d > 0`: `m * d < n` exactly when `m` is below the ceiling of `n / d`.
pub proof fn lemma_below_ceil(m: int, n: int, d: int)
    requires
        d > 0,
    ensures
        (m * d < n) == (m < ceil_div(n, d)),
{
    lemma_fundamental_div_mod(-n, d);
    let f = (-n) / d;
    let r = (-n) % d;
    assert((m * d < n) == (m + f <= -1)) by (nonlinear_arith)
        requires
            -n == d * f + r,
            0 <= r < d,
    ;
}

/// For `d > 0`: `m * d > n` exactly when `m` is above the floor of `n / d`.
pub proof fn lemma_above_floor(m: int, n: int, d: int)
    requires
        d > 0,
    ensures
        (m * d > n) == (m > floor_div(n, d)),
{
    lemma_fundamental_div_mod(n, d);
    let f = n / d;
    let r = n % d;
    assert((m * d > n) == (m >= f + 1)) by (nonlinear_arith)
        requires
            n == d * f + r,
            0 <= r < d,
    ;
}

/// The ceiling of `n / d` is the floor, plus one unless `d` divides `n`.
proof fn lemma_ceil_from_floor(n: int, d: int)
    requires
        d > 0,
    ensures
        ceil_div(n, d) == floor_div(n, d) + (if n % d == 0 {
            0int
        } else {
            1int
        }),
{
    lemma_fundamental_div_mod(n, d);
    let f = n / d;
    let r = n % d;
    assert(-n == (-f) * d - r && -n == (-f - 1) * d + (d - r)) by (nonlinear_arith)
        requires
            n == d * f + r,
    ;
    if r == 0 {
        lemma_fundamental_div_mod_converse(-n, d, -f, 0);
    } else {
        lemma_fundamental_div_mod_converse(-n, d, -f - 1, d - r);
    }
}

/// Where a column's cells end: with `n / d` the height, in half-cell units, at
/// which the line leaves the column, cell `v` starts below it exactly when
/// `v` is at most the cell holding that height (ties going down).
proof fn lemma_column_top(n: int, d: int, v: int)
    requires
        d > 0,
    ensures
        ((2 * v - 1) * d < n) == (v <= floor_div(ceil_div(n, d), 2)),
{
    lemma_below_ceil(2 * v - 1, n, d);
    let c = ceil_div(n, d);
    lemma_fundamental_div_mod(c, 2);
}

/// Where the next column's cells start: cell `v` ends above the height
/// `n / d` exactly when `v` is past the cell holding it, or past that cell
/// and one more when the height falls on a cell corner (an odd whole number
/// of half cells).
proof fn lemma_column_bottom(n: int, d: int, v: int)
    requires
        d > 0,
    ensures
        ((2 * v + 1) * d > n) == (v >= floor_div(ceil_div(n, d), 2) + (if n % d == 0 && (n / d)
            % 2 == 1 {
            1int
        } else {
            0int
        })),
{
    lemma_above_floor(2 * v + 1, n, d);
    lemma_ceil_from_floor(n, d);
    let f = n / d;
    let c = ceil_div(n, d);
    lemma_fundamental_div_mod(c, 2);
    lemma_fundamental_div_mod(f, 2);
}

/// The line's height `n / (2 d)` at a column boundary has denominator 2 in
/// lowest terms exactly when `n / d` is an odd whole number.
proof fn lemma_corner(n: int, d: int)
    requires
        d > 0,
        n >= 0,
    ensures
        (canon_den(n, 2 * d) == 2) == (n % d == 0 && (n / d) % 2 == 1),
{
    let g = canon_gcd(n, 2 * d);
    lemma_gcd_divides(n as nat, (2 * d) as nat);
    assert(abs(n) == n && abs(2 * d) == 2 * d);
    if n % d == 0 && (n / d) % 2 == 1 {
        let m = n / d;
        lemma_fundamental_div_mod(n, d);
        assert(n == d * m);
        lemma_gcd_scale(m as nat, 2, d as nat);
        assert(m % 2 == 1);
        assert(gcd_spec(m as nat, 2) == gcd_spec(2, 1));
        assert(gcd_spec(1, 0) == 1);
        assert(2nat % 1nat == 0);
        assert(gcd_spec(2, 1) == gcd_spec(1, 0));
        assert(g == d * 1);
        lemma_div_multiples_vanish(2, d);
        assert((d * 2) / d == 2);
        assert(d * 2 == 2 * d);
    }
    if canon_den(n, 2 * d) == 2 {
        lemma_fundamental_div_mod(2 * d, g);
        assert(2 * d == g * 2);
        assert(g == d);
        let m = n / d;
        lemma_fundamental_div_mod(n, d);
        assert(n == d * m);
        assert(m >= 0) by (nonlinear_arith)
            requires
                n == d * m,
                n >= 0,
                d > 0,
        ;
        lemma_gcd_scale(m as nat, 2, d as nat);
        assert(d == d * gcd_spec(m as nat, 2));
        assert(gcd_spec(m as nat, 2) == 1) by (nonlinear_arith)
            requires
                d == d * gcd_spec(m as nat, 2),
                d > 0,
        ;
        if m % 2 == 0 {
            assert(gcd_spec(m as nat, 2) == gcd_spec(2, 0));
        }
    }
}

/// A height `v` between `0` and `dy` lands between the segment's ends.
proof fn lemma_between_ends(ly: int, ry: int, sgn: int, dy: int, v: int)
    requires
        sgn == 1 || sgn == -1,
        dy == sgn * (ry - ly),
        0 <= v <= dy,
        -isize::MAX < ly < isize::MAX,
        -isize::MAX < ry < isize::MAX,
    ensures
        -isize::MAX < ly + sgn * v < isize::MAX,
        min(ly, ry) <= ly + sgn * v <= max(ly, ry),
{
    assert(min(ly, ry) <= ly + sgn * v <= max(ly, ry)) by (nonlinear_arith)
        requires
            sgn == 1 || sgn == -1,
            dy == sgn * (ry - ly),
            0 <= v <= dy,
    ;
}

/// One column `u` of the half-cell sweep: with the line's height at the
/// column's right boundary held, in lowest terms, as `hn / hd`, the column's
/// cells end at `last`, and the next column's cells start at `last`, or one
/// above it when that height falls on a cell corner (`hd == 2`).
proof fn lemma_half_column(dx: int, dy: int, u: int, hn: int, hd: int, last: int)
    requires
        dx > 0,
        dy > 0,
        0 <= u < dx,
        hn == canon_num(dy * (2 * u + 1), 2 * dx),
        hd == canon_den(dy * (2 * u + 1), 2 * dx),
        last == floor_div(ceil_div(hn * 2, hd), 2),
    ensures
        forall|v: int| #[trigger] band_high(dx, dy, 1, 2, u, v) == (v <= last),
        forall|v: int|
            #[trigger] band_low(dx, dy, 1, 2, u + 1, v) == (v >= last + (if hd == 2 {
                1int
            } else {
                0int
            })),
        last <= dy,
{
    let n = dy * (2 * u + 1);
    assert(n >= 0) by (nonlinear_arith)
        requires
            n == dy * (2 * u + 1),
            dy > 0,
            u >= 0,
    ;
    lemma_canon(n, 2 * dx);
    assert((-(hn * 2)) * dx == (-n) * hd) by (nonlinear_arith)
        requires
            hn * (2 * dx) == n * hd,
    ;
    crate::rational::lemma_floor_same_value(-(hn * 2), hd, -n, dx);
    assert(ceil_div(hn * 2, hd) == ceil_div(n, dx));
    lemma_corner(n, dx);
    assert(min(dx * 2, u * 2 + 1) == 2 * u + 1);
    assert(max(0, (u + 1) * 2 - 1) == 2 * u + 1);
    assert forall|v: int| #[trigger] band_high(dx, dy, 1, 2, u, v) == (v <= last) by {
        lemma_column_top(n, dx, v);
        assert((v * 2 - 1) * dx == (2 * v - 1) * dx);
        assert(dy * (u * 2 + 1) == n) by (nonlinear_arith)
            requires
                n == dy * (2 * u + 1),
        ;
    }
    assert forall|v: int|
        #[trigger] band_low(dx, dy, 1, 2, u + 1, v) == (v >= last + (if hd == 2 {
            1int
        } else {
            0int
        })) by {
        lemma_column_bottom(n, dx, v);
        assert((v * 2 + 1) * dx == (2 * v + 1) * dx);
        assert(dy * (2 * u + 1) == n);
    }
    lemma_column_top(n, dx, last);
    assert(last <= dy) by (nonlinear_arith)
        requires
            (2 * last - 1) * dx < n,
            n == dy * (2 * u + 1),
            u < dx,
            dx > 0,
            dy > 0,
    ;
}

/// The cells that the segment from `point1` to `point2` passes through: each
/// cell is the open unit square centred on a lattice point, so a segment that
/// crosses a cell corner steps diagonally without touching the two cells
/// beside the corner.
pub fn integer_cells_on_line_segment_2d(point1: Point2D, point2: Point2D) -> (squares: Vec<
    Point2D,
>)
    requires
        segment_fits(point1, point2),
    ensures
        forall|c: Point2D|
            #![trigger squares@.contains(c)]
            squares@.contains(c) <==> cell_touched(point1, point2, 1, 2, c),
        squares@.no_duplicates(),
{
    let mut squares: Vec<Point2D> = Vec::new();
    if point1.x == point2.x {
        let lo = if point1.y < point2.y {
            point1.y
        } else {
            point2.y
        };
        let hi = if point1.y < point2.y {
            point2.y
        } else {
            point1.y
        };
        push_column(&mut squares, point1.x, 0, 1, lo, hi);
        proof {
            assert forall|c: Point2D| #[trigger]
                squares@.contains(c) <==> cell_touched(point1, point2, 1, 2, c) by {
                assert(1 * (c.y - 0) == c.y);
            }
        }
        return squares;
    }
    let left_point = if point1.x < point2.x {
        point1
    } else {
        point2
    };
    let right_point = if point1.x < point2.x {
        point2
    } else {
        point1
    };
    proof {
        lemma_segment_fits(point1, point2);
    }
    let dx = right_point.x - left_point.x;
    if left_point.y == right_point.y {
        push_row(&mut squares, left_point.y, left_point.x, right_point.x);
        proof {
            assert forall|c: Point2D| #[trigger]
                squares@.contains(c) <==> cell_touched(point1, point2, 1, 2, c) by {
                let v = 1 * (c.y - left_point.y);
                let u = c.x - left_point.x;
                assert(band_low(dx as int, 0, 1, 2, u, v) == (v >= 0)) by (nonlinear_arith)
                    requires
                        dx > 0,
                ;
                assert(band_high(dx as int, 0, 1, 2, u, v) == (v <= 0)) by (nonlinear_arith)
                    requires
                        dx > 0,
                ;
            }
        }
        return squares;
    }
    let slope_sign: isize = if left_point.y < right_point.y {
        1
    } else {
        -1
    };
    let dy = if left_point.y < right_point.y {
        right_point.y - left_point.y
    } else {
        left_point.y - right_point.y
    };
    assert(dy == slope_sign * (right_point.y - left_point.y)) by (nonlinear_arith)
        requires
            left_point.y < right_point.y ==> slope_sign == 1 && dy == right_point.y - left_point.y,
            left_point.y >= right_point.y ==> slope_sign == -1 && dy == left_point.y
                - right_point.y,
    ;
    let slope = Rational::new_rational_from_integers(dy, dx);
    proof {
        lemma_canon(dy as int, dx as int);
    }
    let mut current_height: isize = 0;
    let mut num: isize = 0;
    proof {
        assert forall|v: int| #[trigger] band_low(dx as int, dy as int, 1, 2, 0, v) == (v >= 0) by {
            assert(max(0, 0 * 2 - 1) == 0);
            assert(dy * 0 == 0);
            assert(((v * 2 + 1) * dx > 0) == (v >= 0)) by (nonlinear_arith)
                requires
                    dx > 0,
            ;
        }
    }
    while num < dx
        invariant
            0 <= num <= dx,
            dx == right_point.x - left_point.x,
            dy == slope_sign * (right_point.y - left_point.y),
            slope_sign == 1 || slope_sign == -1,
            dx > 0,
            dy > 0,
            16 * (dx + 1) * (dy + 1) <= isize::MAX,
            -isize::MAX < left_point.x < isize::MAX,
            -isize::MAX < left_point.y < isize::MAX,
            -isize::MAX < right_point.x < isize::MAX,
            -isize::MAX < right_point.y < isize::MAX,
            slope.num() == canon_num(dy as int, dx as int),
            slope.den() == canon_den(dy as int, dx as int),
            slope.num() * dx == dy * slope.den(),
            0 <= slope.num() <= dy,
            0 < slope.den() <= dx,
            0 <= current_height <= dy + 1,
            forall|v: int| #[trigger]
                band_low(dx as int, dy as int, 1, 2, num as int, v) == (v >= current_height),
            forall|c: Point2D|
                #![trigger squares@.contains(c)]
                squares@.contains(c) <==> (0 <= c.x - left_point.x < num && in_band(
                    dx as int,
                    dy as int,
                    1,
                    2,
                    c.x - left_point.x,
                    slope_sign * (c.y - left_point.y),
                )),
            squares@.no_duplicates(),
        decreases dx - num,
    {
        proof {
            assert(2 * dx * dy <= 16 * (dx + 1) * (dy + 1) && 4 * dx * dy <= 16 * (dx + 1) * (dy
                + 1) && 2 * dx + 1 <= 16 * (dx + 1) * (dy + 1)) by (nonlinear_arith)
                requires
                    dx > 0,
                    dy > 0,
            ;
        }
        let step = Rational::new_rational_from_integers(num * 2 + 1, 2);
        proof {
            lemma_canon(num * 2 + 1, 2);
            assert(0 <= slope.num() * step.num() <= 2 * dx * dy) by (nonlinear_arith)
                requires
                    0 <= slope.num() <= dy,
                    0 <= step.num() <= num * 2 + 1,
                    num < dx,
            ;
            assert(slope.den() * step.den() <= 2 * dx) by (nonlinear_arith)
                requires
                    0 < slope.den() <= dx,
                    0 < step.den() <= 2,
            ;
            assert(2 * dx * dy <= 16 * (dx + 1) * (dy + 1)) by (nonlinear_arith)
                requires
                    dx > 0,
                    dy > 0,
            ;
        }
        let line_intersection_between_integers = slope.mul(step);
        let ghost n = dy * (2 * num + 1);
        proof {
            assert(slope.num() * step.num() * (2 * dx) == n * (slope.den() * step.den())) by (
            nonlinear_arith)
                requires
                    slope.num() * dx == dy * slope.den(),
                    step.num() * 2 == (num * 2 + 1) * step.den(),
                    n == dy * (2 * num + 1),
            ;
            assert(slope.den() * step.den() > 0) by (nonlinear_arith)
                requires
                    slope.den() > 0,
                    step.den() > 0,
            ;
            lemma_canon_same_value(
                slope.num() * step.num(),
                slope.den() * step.den(),
                n,
                2 * dx,
            );
            lemma_canon(n, 2 * dx);
            lemma_canon(slope.num() * step.num(), slope.den() * step.den());
            assert(0 <= n <= 2 * dx * dy) by (nonlinear_arith)
                requires
                    n == dy * (2 * num + 1),
                    0 <= num < dx,
                    dy > 0,
            ;
        }
        proof {
            assert(abs(line_intersection_between_integers.num()) <= n);
            assert(abs(line_intersection_between_integers.num()) * 2 <= 4 * dx * dy) by (
            nonlinear_arith)
                requires
                    abs(line_intersection_between_integers.num()) <= n,
                    n <= 2 * dx * dy,
            ;
        }
        let kitty_corner = line_intersection_between_integers.denominator() == 2;
        let rounded = line_intersection_between_integers.rational_ceil(2);
        let ghost hn = line_intersection_between_integers.num();
        let ghost hd = line_intersection_between_integers.den();
        let ghost top = ceil_div(hn * 2, hd);
        proof {
            lemma_canon(top, 2);
            lemma_canon_floor_ceil(top, 2);
            assert(hd > 0);
            crate::rational::lemma_floor_bound(-(hn * 2), hd);
            assert(abs(top) <= 4 * dx * dy);
            assert(abs(rounded.num()) <= abs(top));
        }
        let last_y_square_hit = rounded.floor();
        proof {
            lemma_half_column(dx as int, dy as int, num as int, hn, hd, last_y_square_hit as int);
        }
        proof {
            if current_height <= last_y_square_hit {
                lemma_between_ends(left_point.y as int, right_point.y as int, slope_sign as int, dy as int, current_height as int);
                lemma_between_ends(left_point.y as int, right_point.y as int, slope_sign as int, dy as int, last_y_square_hit as int);
            }
        }
        let ghost prev = squares@;
        let ghost prev_height = current_height;
        push_column(
            &mut squares,
            num + left_point.x,
            left_point.y,
            slope_sign,
            current_height,
            last_y_square_hit,
        );
        proof {
            assert forall|c: Point2D| #![trigger squares@.contains(c)]
                squares@.contains(c) <==> (0 <= c.x - left_point.x < num + 1 && in_band(
                    dx as int,
                    dy as int,
                    1,
                    2,
                    c.x - left_point.x,
                    slope_sign * (c.y - left_point.y),
                )) by {
                assert(prev.contains(c) == (0 <= c.x - left_point.x < num && in_band(
                    dx as int,
                    dy as int,
                    1,
                    2,
                    c.x - left_point.x,
                    slope_sign * (c.y - left_point.y),
                )));
                let v = slope_sign * (c.y - left_point.y);
                assert(band_low(dx as int, dy as int, 1, 2, num as int, v) == (v >= prev_height));
                assert(band_high(dx as int, dy as int, 1, 2, num as int, v) == (v
                    <= last_y_square_hit));
            }
        }
        current_height = last_y_square_hit;
        if kitty_corner {
            current_height = current_height + 1;
        }
        proof {
            assert(band_low(dx as int, dy as int, 1, 2, num + 1, current_height as int));
            assert(current_height >= 0) by (nonlinear_arith)
                requires
                    (current_height * 2 + 1) * dx > dy * max(0, (num + 1) * 2 - 1),
                    dx > 0,
                    dy > 0,
                    num >= 0,
            ;
        }
        num = num + 1;
    }
    proof {
        if current_height <= dy {
            lemma_between_ends(left_point.y as int, right_point.y as int, slope_sign as int, dy as int, current_height as int);
            lemma_between_ends(left_point.y as int, right_point.y as int, slope_sign as int, dy as int, dy as int);
        }
    }
    let ghost prev = squares@;
    push_column(&mut squares, right_point.x, left_point.y, slope_sign, current_height, dy);
    proof {
        assert forall|c: Point2D| #[trigger]
            squares@.contains(c) <==> cell_touched(point1, point2, 1, 2, c) by {
            let v = slope_sign * (c.y - left_point.y);
            assert(band_low(dx as int, dy as int, 1, 2, dx as int, v) == (v >= current_height));
            assert(min(dx * 2, dx * 2 + 1) == dx * 2);
            assert(band_high(dx as int, dy as int, 1, 2, dx as int, v) == (v <= dy)) by (
            nonlinear_arith)
                requires
                    dx > 0,
                    min(dx * 2, dx * 2 + 1) == dx * 2,
            ;
            assert(prev.contains(c) == (0 <= c.x - left_point.x < dx && in_band(
                dx as int,
                dy as int,
                1,
                2,
                c.x - left_point.x,
                v,
            )));
        }
    }
    squares
}

/// Bounds under which the rational-radius rasteriser's intermediate values fit.
pub open spec fn radius_fits(p1: Point2D, p2: Point2D, radius: Rational) -> bool {
    0 < 2 * radius.num() < radius.den() ==> 16 * (abs(p2.x - p1.x) + 1) * (abs(p2.y - p1.y) + 1)
        * (radius.den() + 1) <= isize::MAX
}

/// The sizes of the values `band_column` works with.
proof fn lemma_band_sizes(dx: int, dy: int, p: int, q: int, u: int)
    requires
        dx > 0,
        dy >= 0,
        0 < 2 * p < q,
        0 <= u <= dx,
    ensures
        16 * ((dx + 1) * (dy + 1) * (q + 1)) == 16 * (dx + 1) * (dy + 1) * (q + 1),
        0 < dx * q <= (dx + 1) * (dy + 1) * (q + 1),
        0 <= u * q <= dx * q,
        0 <= p * dx <= (dx + 1) * (dy + 1) * (q + 1),
        0 <= dy * (dx * q) <= (dx + 1) * (dy + 1) * (q + 1),
        forall|w: int| 0 <= w <= dx * q ==> 0 <= #[trigger] (dy * w) <= dy * (dx * q),
{
    let b = (dx + 1) * (dy + 1) * (q + 1);
    assert(16 * ((dx + 1) * (dy + 1) * (q + 1)) == 16 * (dx + 1) * (dy + 1) * (q + 1)) by (
    nonlinear_arith);
    assert(0 < dx * q <= b) by (nonlinear_arith)
        requires
            dx > 0,
            dy >= 0,
            q > 0,
            b == (dx + 1) * (dy + 1) * (q + 1),
    ;
    assert(0 <= u * q <= dx * q) by (nonlinear_arith)
        requires
            0 <= u <= dx,
            q > 0,
    ;
    assert(0 <= p * dx <= b) by (nonlinear_arith)
        requires
            dx > 0,
            dy >= 0,
            0 < p < q,
            b == (dx + 1) * (dy + 1) * (q + 1),
    ;
    assert(0 <= dy * (dx * q) <= b) by (nonlinear_arith)
        requires
            dx > 0,
            dy >= 0,
            q > 0,
            b == (dx + 1) * (dy + 1) * (q + 1),
    ;
    assert forall|w: int| 0 <= w <= dx * q implies 0 <= #[trigger] (dy * w) <= dy * (dx * q) by {
        assert(0 <= dy * w <= dy * (dx * q)) by (nonlinear_arith)
            requires
                0 <= w <= dx * q,
                dy >= 0,
        ;
    }
}

/// The cells of column `u` that the band of half-width `p / q` around the
/// segment from `(0, 0)` to `(dx, dy)` touches: exactly `lo ..= hi`.
fn band_column(dx: isize, dy: isize, p: isize, q: isize, u: isize) -> (r: (isize, isize))
    requires
        dx > 0,
        dy >= 0,
        0 < 2 * p < q,
        0 <= u <= dx,
        16 * (dx + 1) * (dy + 1) * (q + 1) <= isize::MAX,
    ensures
        forall|v: int| #[trigger] band_low(dx as int, dy as int, p as int, q as int, u as int, v) == (
        v >= r.0),
        forall|v: int| #[trigger] band_high(dx as int, dy as int, p as int, q as int, u as int, v) == (
        v <= r.1),
        0 <= r.0,
        r.1 <= dy,
{
    proof {
        lemma_band_sizes(dx as int, dy as int, p as int, q as int, u as int);
    }
    let run = dx * q;
    let below = if u * q - p > 0 {
        u * q - p
    } else {
        0
    };
    let above = if u * q + p < run {
        u * q + p
    } else {
        run
    };
    proof {
        assert(0 <= dy * below <= dy * (dx * q));
        assert(0 <= dy * above <= dy * (dx * q));
    }
    let low_edge = Rational::new_rational_from_integers(dy * below - p * dx, run);
    let high_edge = Rational::new_rational_from_integers(dy * above + p * dx, run);
    proof {
        lemma_canon((dy * below - p * dx) as int, run as int);
        lemma_canon((dy * above + p * dx) as int, run as int);
        lemma_canon_floor_ceil((dy * below - p * dx) as int, run as int);
        lemma_canon_floor_ceil((dy * above + p * dx) as int, run as int);
    }
    proof {
        crate::rational::lemma_floor_bound((dy * below - p * dx) as int, run as int);
        crate::rational::lemma_floor_bound(-(dy * above + p * dx), run as int);
    }
    let lo = low_edge.floor() + 1;
    let hi = high_edge.ceil() - 1;
    proof {
        assert(max(0, u * q - p) == below);
        assert(min(dx * q, u * q + p) == above);
        assert forall|v: int| #[trigger]
            band_low(dx as int, dy as int, p as int, q as int, u as int, v) == (v >= lo) by {
            lemma_above_floor(v, (dy * below - p * dx) as int, run as int);
            assert(((v * q + p) * dx > dy * below) == (v * run > dy * below - p * dx)) by (
            nonlinear_arith)
                requires
                    run == dx * q,
            ;
        }
        assert forall|v: int| #[trigger]
            band_high(dx as int, dy as int, p as int, q as int, u as int, v) == (v <= hi) by {
            lemma_below_ceil(v, (dy * above + p * dx) as int, run as int);
            assert(((v * q - p) * dx < dy * above) == (v * run < dy * above + p * dx)) by (
            nonlinear_arith)
                requires
                    run == dx * q,
            ;
        }
        assert(band_low(dx as int, dy as int, p as int, q as int, u as int, lo as int));
        assert(lo >= 0) by (nonlinear_arith)
            requires
                (lo * q + p) * dx > dy * below,
                dy * below >= 0,
                dx > 0,
                0 < 2 * p < q,
        ;
        if hi >= 0 {
            assert(band_high(dx as int, dy as int, p as int, q as int, u as int, hi as int));
            assert(hi <= dy) by (nonlinear_arith)
                requires
                    (hi * q - p) * dx < dy * above,
                    above <= dx * q,
                    dy >= 0,
                    dx > 0,
                    0 < 2 * p < q,
            ;
        }
    }
    (lo, hi)
}

/// The cells whose open square of half-side `radius` meets the segment from
/// `point1` to `point2`. A radius of zero or less gives the lattice points on
/// the segment; one of a half or more gives the cells of
/// `integer_cells_on_line_segment_2d`.
pub fn integer_cells_on_line_segment_2d_rational_scale(
    point1: Point2D,
    point2: Point2D,
    radius: Rational,
) -> (squares: Vec<Point2D>)
    requires
        segment_fits(point1, point2),
        radius_fits(point1, point2, radius),
    ensures
        forall|c: Point2D|
            #![trigger squares@.contains(c)]
            squares@.contains(c) <==> if radius.num() <= 0 {
                on_segment(point1, point2, c)
            } else if 2 * radius.num() >= radius.den() {
                cell_touched(point1, point2, 1, 2, c)
            } else {
                cell_touched(point1, point2, radius.num(), radius.den(), c)
            },
        squares@.no_duplicates(),
{
    proof {
        use_type_invariant(&radius);
        radius.lemma_valid();
    }
    let zero = Rational::new_rational_from_integer(0);
    let half = Rational::new_rational(1, 2);
    proof {
        lemma_canon(1, 2);
        assert(half.num() == 1 && half.den() == 2);
        assert(radius.num() * 1 == radius.num());
        assert(radius.num() * 2 == 2 * radius.num());
        assert(0 * radius.den() == 0);
    }
    if radius.le(&zero) {
        return integer_points_on_line_segment_2d(point1, point2);
    } else if radius.ge(&half) {
        return integer_cells_on_line_segment_2d(point1, point2);
    }
    let mut squares: Vec<Point2D> = Vec::new();
    if point1.x == point2.x {
        let lo = if point1.y < point2.y {
            point1.y
        } else {
            point2.y
        };
        let hi = if point1.y < point2.y {
            point2.y
        } else {
            point1.y
        };
        push_column(&mut squares, point1.x, 0, 1, lo, hi);
        proof {
            assert forall|c: Point2D| #[trigger]
                squares@.contains(c) <==> cell_touched(
                    point1,
                    point2,
                    radius.num(),
                    radius.den(),
                    c,
                ) by {
                assert(1 * (c.y - 0) == c.y);
            }
        }
        return squares;
    }
    let left_point = if point1.x < point2.x {
        point1
    } else {
        point2
    };
    let right_point = if point1.x < point2.x {
        point2
    } else {
        point1
    };
    proof {
        lemma_segment_fits(point1, point2);
    }
    let dx = right_point.x - left_point.x;
    proof {
        assert(0 < 2 * radius.num() < radius.den());
        let ady = abs(right_point.y - left_point.y);
        assert(abs(point2.x - point1.x) == dx && abs(point2.y - point1.y) == ady);
        assert(radius.den() + 1 <= 16 * (dx + 1) * (ady + 1) * (radius.den() + 1)) by (
        nonlinear_arith)
            requires
                dx > 0,
                ady >= 0,
                radius.den() > 0,
        ;
    }
    let p = radius.numerator() as isize;
    let q = radius.denominator() as isize;
    if left_point.y == right_point.y {
        push_row(&mut squares, left_point.y, left_point.x, right_point.x);
        proof {
            assert forall|c: Point2D| #[trigger]
                squares@.contains(c) <==> cell_touched(
                    point1,
                    point2,
                    radius.num(),
                    radius.den(),
                    c,
                ) by {
                let v = 1 * (c.y - left_point.y);
                let u = c.x - left_point.x;
                assert(band_low(dx as int, 0, p as int, q as int, u, v) == (v >= 0)) by (
                nonlinear_arith)
                    requires
                        dx > 0,
                        0 < 2 * p < q,
                ;
                assert(band_high(dx as int, 0, p as int, q as int, u, v) == (v <= 0)) by (
                nonlinear_arith)
                    requires
                        dx > 0,
                        0 < 2 * p < q,
                ;
            }
        }
        return squares;
    }
    let slope_sign: isize = if left_point.y < right_point.y {
        1
    } else {
        -1
    };
    let dy = if left_point.y < right_point.y {
        right_point.y - left_point.y
    } else {
        left_point.y - right_point.y
    };
    assert(dy == slope_sign * (right_point.y - left_point.y)) by (nonlinear_arith)
        requires
            left_point.y < right_point.y ==> slope_sign == 1 && dy == right_point.y - left_point.y,
            left_point.y >= right_point.y ==> slope_sign == -1 && dy == left_point.y
                - right_point.y,
    ;
    let mut num: isize = 0;
    while num <= dx
        invariant
            0 <= num <= dx + 1,
            dx == right_point.x - left_point.x,
            dy == slope_sign * (right_point.y - left_point.y),
            slope_sign == 1 || slope_sign == -1,
            dx > 0,
            dy > 0,
            0 < 2 * p < q,
            16 * (dx + 1) * (dy + 1) * (q + 1) <= isize::MAX,
            16 * (dx + 1) <= isize::MAX,
            16 * (dy + 1) <= isize::MAX,
            -isize::MAX < left_point.x < isize::MAX,
            -isize::MAX < left_point.y < isize::MAX,
            -isize::MAX < right_point.x < isize::MAX,
            -isize::MAX < right_point.y < isize::MAX,
            forall|c: Point2D|
                #![trigger squares@.contains(c)]
                squares@.contains(c) <==> (0 <= c.x - left_point.x < num && in_band(
                    dx as int,
                    dy as int,
                    p as int,
                    q as int,
                    c.x - left_point.x,
                    slope_sign * (c.y - left_point.y),
                )),
            squares@.no_duplicates(),
        decreases dx + 1 - num,
    {
        let (lo, hi) = band_column(dx, dy, p, q, num);
        proof {
            if lo <= hi {
                lemma_between_ends(left_point.y as int, right_point.y as int, slope_sign as int, dy as int, lo as int);
                lemma_between_ends(left_point.y as int, right_point.y as int, slope_sign as int, dy as int, hi as int);
            }
        }
        let ghost prev = squares@;
        push_column(&mut squares, num + left_point.x, left_point.y, slope_sign, lo, hi);
        proof {
            assert forall|c: Point2D| #![trigger squares@.contains(c)]
                squares@.contains(c) <==> (0 <= c.x - left_point.x < num + 1 && in_band(
                    dx as int,
                    dy as int,
                    p as int,
                    q as int,
                    c.x - left_point.x,
                    slope_sign * (c.y - left_point.y),
                )) by {
                assert(prev.contains(c) == (0 <= c.x - left_point.x < num && in_band(
                    dx as int,
                    dy as int,
                    p as int,
                    q as int,
                    c.x - left_point.x,
                    slope_sign * (c.y - left_point.y),
                )));
                let v = slope_sign * (c.y - left_point.y);
                assert(band_low(dx as int, dy as int, p as int, q as int, num as int, v) == (v
                    >= lo));
                assert(band_high(dx as int, dy as int, p as int, q as int, num as int, v) == (v
                    <= hi));
            }
        }
        num = num + 1;
    }
    squares
}

/// The lattice points on the closed segment from `point1` to `point2`; see
/// `integer_points_on_line_segment_2d`.
pub fn integer_points_on_line(point1: Point2D, point2: Point2D) -> (squares: Vec<Point2D>)
    requires
        segment_fits(point1, point2),
    ensures
        forall|c: Point2D|
            #![trigger squares@.contains(c)]
            squares@.contains(c) <==> on_segment(point1, point2, c),
        squares@.no_duplicates(),
        forall|i: int, j: int|
            0 <= i < j < squares@.len() ==> if point1.x == point2.x {
                squares@[i].y < squares@[j].y
            } else {
                squares@[i].x < squares@[j].x
            },
{
    integer_points_on_line_segment_2d(point1, point2)
}

/// The cells within L-infinity distance one half of the segment; see
/// `integer_cells_on_line_segment_2d`.
pub fn l_infinity_line(point1: Point2D, point2: Point2D) -> (squares: Vec<Point2D>)
    requires
        segment_fits(point1, point2),
    ensures
        forall|c: Point2D|
            #![trigger squares@.contains(c)]
            squares@.contains(c) <==> cell_touched(point1, point2, 1, 2, c),
        squares@.no_duplicates(),
{
    integer_cells_on_line_segment_2d(point1, point2)
}

/// The cells within L-infinity distance `radius` of the segment; see
/// `integer_cells_on_line_segment_2d_rational_scale`.
pub fn l_infinity_line_rational(point1: Point2D, point2: Point2D, radius: Rational) -> (squares:
    Vec<Point2D>)
    requires
        segment_fits(point1, point2),
        radius_fits(point1, point2, radius),
    ensures
        forall|c: Point2D|
            #![trigger squares@.contains(c)]
            squares@.contains(c) <==> if radius.num() <= 0 {
                on_segment(point1, point2, c)
            } else if 2 * radius.num() >= radius.den() {
                cell_touched(point1, point2, 1, 2, c)
            } else {
                cell_touched(point1, point2, radius.num(), radius.den(), c)
            },
        squares@.no_duplicates(),
{
    integer_cells_on_line_segment_2d_rational_scale(point1, point2, radius)
}

} // verus!
