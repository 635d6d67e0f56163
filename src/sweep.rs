//! Cells met by a segment whose endpoints are given in a finer integer grid:
//! the common ground of rasterising between rational endpoints, in the
//! plane and layer by layer in space.
use vstd::prelude::*;
use crate::line2d::push_column;
use crate::point::{Point2D, RationalPoint2D, max, min};
use crate::rational::{
    abs, ceil_div, floor_div, lemma_canon, lemma_canon_floor_ceil, Rational,
};

verus! {

/// The open box `(cx - hx, cx + hx) x (cy - hy, cy + hy)` meets the closed
/// segment from `(ax, ay)` to `(bx, by)`.
pub open spec fn box_meets_segment(
    cx: int,
    cy: int,
    hx: int,
    hy: int,
    ax: int,
    ay: int,
    bx: int,
    by: int,
) -> bool {
    if ax == bx {
        cx - hx < ax < cx + hx && cy - hy < max(ay, by) && min(ay, by) < cy + hy
    } else {
        let lx = if ax < bx {
            ax
        } else {
            bx
        };
        let ly = if ax < bx {
            ay
        } else {
            by
        };
        let rx = if ax < bx {
            bx
        } else {
            ax
        };
        let ry = if ax < bx {
            by
        } else {
            ay
        };
        let s: int = if ry >= ly {
            1
        } else {
            -1
        };
        &&& cx - hx < rx
        &&& lx < cx + hx
        &&& (s * (cy - ly) + hy) * (rx - lx) > s * (ry - ly) * (max(lx, cx - hx) - lx)
        &&& (s * (cy - ly) - hy) * (rx - lx) < s * (ry - ly) * (min(rx, cx + hx) - lx)
    }
}

/// In a grid where a cell is `2 * hx` wide and `2 * hy` tall, with cell `c`
/// centred on `(2 * c.x * hx, 2 * c.y * hy)`: the cell's open box meets the
/// closed segment from `(ax, ay)` to `(bx, by)`.
pub open spec fn scaled_cell_touched(
    ax: int,
    ay: int,
    bx: int,
    by: int,
    hx: int,
    hy: int,
    c: Point2D,
) -> bool {
    box_meets_segment(2 * c.x * hx, 2 * c.y * hy, hx, hy, ax, ay, bx, by)
}

/// Every value `push_scaled_cells` works with fits in a machine word.
pub open spec fn scaled_fits(ax: int, ay: int, bx: int, by: int, hx: int, hy: int, b: int) -> bool {
    &&& abs(ax) <= b
    &&& abs(ay) <= b
    &&& abs(bx) <= b
    &&& abs(by) <= b
    &&& 0 < hx <= b
    &&& 0 < hy <= b
    &&& 64 * (b + 1) * (b + 1) <= isize::MAX
}

/// The floor of `n / d`, through an exact rational.
fn floor_of(n: isize, d: isize) -> (r: isize)
    requires
        d > 0,
        n > isize::MIN,
    ensures
        r == floor_div(n as int, d as int),
{
    let q = Rational::new_rational_from_integers(n, d);
    proof {
        lemma_canon(n as int, d as int);
        lemma_canon_floor_ceil(n as int, d as int);
    }
    q.floor()
}

/// The ceiling of `n / d`, through an exact rational.
fn ceil_of(n: isize, d: isize) -> (r: isize)
    requires
        d > 0,
        n > isize::MIN,
    ensures
        r == ceil_div(n as int, d as int),
{
    let q = Rational::new_rational_from_integers(n, d);
    proof {
        lemma_canon(n as int, d as int);
        lemma_canon_floor_ceil(n as int, d as int);
    }
    q.ceil()
}

/// For `d > 0`: `m * d > n` exactly when `m > floor(n / d)`, and
/// `m * d < n` exactly when `m < ceil(n / d)`.
proof fn lemma_floor_ceil_bounds(m: int, n: int, d: int)
    requires
        d > 0,
    ensures
        (m * d > n) == (m > floor_div(n, d)),
        (m * d < n) == (m < ceil_div(n, d)),
        abs(floor_div(n, d)) <= abs(n),
        abs(ceil_div(n, d)) <= abs(n),
{
    crate::line2d::lemma_above_floor(m, n, d);
    crate::line2d::lemma_below_ceil(m, n, d);
    crate::rational::lemma_floor_bound(n, d);
    crate::rational::lemma_floor_bound(-n, d);
}

/// Column `x` of the sweep over a segment from `(lx, ly)` to `(rx, ry)` with
/// `lx < rx`: with `s` the sign of the rise, the cells `(x, s * v)` whose
/// boxes meet the segment are exactly those with `lo <= v <= hi`.
fn scaled_column(
    lx: isize,
    ly: isize,
    rx: isize,
    ry: isize,
    hx: isize,
    hy: isize,
    s: isize,
    x: isize,
    b: Ghost<int>,
) -> (r: (isize, isize))
    requires
        lx < rx,
        s == (if ry >= ly {
            1isize
        } else {
            -1isize
        }),
        scaled_fits(lx as int, ly as int, rx as int, ry as int, hx as int, hy as int, b@),
        (2 * x - 1) * hx < rx,
        lx < (2 * x + 1) * hx,
    ensures
        forall|c: Point2D|
            c.x == x ==> (#[trigger] box_meets_segment(
                2 * c.x * hx,
                2 * c.y * hy,
                hx as int,
                hy as int,
                lx as int,
                ly as int,
                rx as int,
                ry as int,
            ) <==> r.0 <= s * c.y <= r.1),
        -8 * ((b@ + 1) * (b@ + 1)) <= r.0,
        r.1 <= 8 * ((b@ + 1) * (b@ + 1)),
{
    let ghost bb = b@;
    let ghost k = (bb + 1) * (bb + 1);
    proof {
        assert(bb >= 0);
        assert(bb + 1 <= k && 64 * k <= isize::MAX) by (nonlinear_arith)
            requires
                bb >= 0,
                k == (bb + 1) * (bb + 1),
                64 * (bb + 1) * (bb + 1) <= isize::MAX,
        ;
        assert(-(bb + 1) <= x <= bb + 1) by (nonlinear_arith)
            requires
                (2 * x - 1) * hx < rx,
                lx < (2 * x + 1) * hx,
                0 < hx <= bb,
                abs(lx as int) <= bb,
                abs(rx as int) <= bb,
        ;
        assert(-3 * k <= (2 * x - 1) * hx && (2 * x + 1) * hx <= 3 * k) by (nonlinear_arith)
            requires
                (2 * x - 1) * hx < rx,
                lx < (2 * x + 1) * hx,
                0 < hx <= bb,
                abs(lx as int) <= bb,
                abs(rx as int) <= bb,
                k == (bb + 1) * (bb + 1),
        ;
        assert(0 < 2 * hy * (rx - lx) <= 4 * k) by (nonlinear_arith)
            requires
                0 < hy <= bb,
                lx < rx,
                abs(lx as int) <= bb,
                abs(rx as int) <= bb,
                k == (bb + 1) * (bb + 1),
        ;
    }
    let w = rx - lx;
    let dy = s * (ry - ly);
    let left_edge = (2 * x - 1) * hx;
    let right_edge = (2 * x + 1) * hx;
    let xl = if lx > left_edge {
        lx
    } else {
        left_edge
    };
    let xr = if rx < right_edge {
        rx
    } else {
        right_edge
    };
    proof {
        assert(0 <= dy <= 2 * bb && 0 < w <= 2 * bb) by (nonlinear_arith)
            requires
                s == 1 || s == -1,
                s == 1 ==> ry >= ly,
                s == -1 ==> ry < ly,
                dy == s * (ry - ly),
                w == rx - lx,
                abs(ly as int) <= bb,
                abs(ry as int) <= bb,
                abs(lx as int) <= bb,
                abs(rx as int) <= bb,
                lx < rx,
        ;
        assert(0 <= xl - lx <= w && 0 <= xr - lx <= w);
        assert(0 <= dy * (xl - lx) <= 4 * k && 0 <= dy * (xr - lx) <= 4 * k) by (nonlinear_arith)
            requires
                0 <= dy <= 2 * bb,
                0 <= xl - lx <= w,
                0 <= xr - lx <= w,
                w <= 2 * bb,
                k == (bb + 1) * (bb + 1),
                bb >= 0,
        ;
        assert(abs((s * ly - hy) * w) <= 4 * k && abs((s * ly + hy) * w) <= 4 * k && abs(s * ly
            - hy) <= 2 * bb && abs(s * ly + hy) <= 2 * bb) by (nonlinear_arith)
            requires
                s == 1 || s == -1,
                abs(ly as int) <= bb,
                0 < hy <= bb,
                0 < w <= 2 * bb,
                k == (bb + 1) * (bb + 1),
                bb >= 0,
        ;
    }
    let den = 2 * hy * w;
    let low_num = dy * (xl - lx) + (s * ly - hy) * w;
    let high_num = dy * (xr - lx) + (s * ly + hy) * w;
    proof {
        lemma_floor_ceil_bounds(0, low_num as int, den as int);
        lemma_floor_ceil_bounds(0, high_num as int, den as int);
    }
    let lo = floor_of(low_num, den) + 1;
    let hi = ceil_of(high_num, den) - 1;
    proof {
        assert forall|c: Point2D|
            c.x == x implies (#[trigger] box_meets_segment(
                2 * c.x * hx,
                2 * c.y * hy,
                hx as int,
                hy as int,
                lx as int,
                ly as int,
                rx as int,
                ry as int,
            ) <==> lo <= s * c.y <= hi) by {
            let v = s * c.y;
            let cx = 2 * c.x * hx;
            let cy = 2 * c.y * hy;
            assert(cx - hx == (2 * x - 1) * hx && cx + hx == (2 * x + 1) * hx) by (nonlinear_arith)
                requires
                    cx == 2 * c.x * hx,
                    c.x == x,
            ;
            assert(max(lx as int, cx - hx) == xl && min(rx as int, cx + hx) == xr);
            assert(s * (cy - ly) == 2 * v * hy - s * ly) by (nonlinear_arith)
                requires
                    v == s * c.y,
                    cy == 2 * c.y * hy,
                    s == 1 || s == -1,
            ;
            lemma_floor_ceil_bounds(v, low_num as int, den as int);
            lemma_floor_ceil_bounds(v, high_num as int, den as int);
            assert(((2 * v * hy - s * ly + hy) * w > dy * (xl - lx)) == (v * den > low_num)) by (
            nonlinear_arith)
                requires
                    den == 2 * hy * w,
                    low_num == dy * (xl - lx) + (s * ly - hy) * w,
            ;
            assert(((2 * v * hy - s * ly - hy) * w < dy * (xr - lx)) == (v * den < high_num)) by (
            nonlinear_arith)
                requires
                    den == 2 * hy * w,
                    high_num == dy * (xr - lx) + (s * ly + hy) * w,
            ;
        }
    }
    (lo, hi)
}

/// Appends the cells whose boxes, in a grid where a cell is `2 * hx` wide and
/// `2 * hy` tall, meet the closed segment from `(ax, ay)` to `(bx, by)`. A
/// segment running along a cell boundary touches no cell there.
pub fn push_scaled_cells(
    cells: &mut Vec<Point2D>,
    ax: isize,
    ay: isize,
    bx: isize,
    by: isize,
    hx: isize,
    hy: isize,
    b: Ghost<int>,
)
    requires
        scaled_fits(ax as int, ay as int, bx as int, by as int, hx as int, hy as int, b@),
    ensures
        forall|c: Point2D| #![trigger final(cells)@.contains(c)]
            final(cells)@.contains(c) <==> (old(cells)@.contains(c) || scaled_cell_touched(
                ax as int,
                ay as int,
                bx as int,
                by as int,
                hx as int,
                hy as int,
                c,
            )),
        old(cells)@.len() == 0 ==> final(cells)@.no_duplicates(),
{
    let ghost bb = b@;
    let ghost k = (bb + 1) * (bb + 1);
    proof {
        assert(bb >= 0);
        assert(bb + 1 <= k && 64 * k <= isize::MAX) by (nonlinear_arith)
            requires
                bb >= 0,
                k == (bb + 1) * (bb + 1),
                64 * (bb + 1) * (bb + 1) <= isize::MAX,
        ;
    }
    let lx = if ax <= bx {
        ax
    } else {
        bx
    };
    let ly = if ax < bx {
        ay
    } else {
        by
    };
    let rx = if ax < bx {
        bx
    } else {
        ax
    };
    let ry = if ax < bx {
        by
    } else {
        ay
    };
    proof {
        assert(bb + 1 <= 64 * (bb + 1) * (bb + 1)) by (nonlinear_arith)
            requires
                bb >= 0,
        ;
    }
    proof {
        lemma_floor_ceil_bounds(0, (lx - hx) as int, 2 * hx);
        lemma_floor_ceil_bounds(0, (rx + hx) as int, 2 * hx);
    }
    let x_lo = floor_of(lx - hx, 2 * hx) + 1;
    let x_hi = ceil_of(rx + hx, 2 * hx) - 1;
    proof {
        assert forall|c: Point2D|
            (lx < 2 * c.x * hx + hx && 2 * c.x * hx - hx < rx) == (x_lo <= #[trigger] c.x <= x_hi)
            by {
            lemma_floor_ceil_bounds(c.x as int, (lx - hx) as int, 2 * hx);
            lemma_floor_ceil_bounds(c.x as int, (rx + hx) as int, 2 * hx);
            assert(c.x * (2 * hx) == 2 * c.x * hx) by (nonlinear_arith);
        }
    }
    if ax == bx {
        let y_min = if ay < by {
            ay
        } else {
            by
        };
        let y_max = if ay < by {
            by
        } else {
            ay
        };
        proof {
            lemma_floor_ceil_bounds(0, (y_min - hy) as int, 2 * hy);
            lemma_floor_ceil_bounds(0, (y_max + hy) as int, 2 * hy);
        }
        let y_lo = floor_of(y_min - hy, 2 * hy) + 1;
        let y_hi = ceil_of(y_max + hy, 2 * hy) - 1;
        proof {
            assert forall|c: Point2D|
                (y_min < 2 * c.y * hy + hy && 2 * c.y * hy - hy < y_max) == (y_lo <= #[trigger] (1
                    * (c.y - 0)) <= y_hi) by {
                lemma_floor_ceil_bounds(c.y as int, (y_min - hy) as int, 2 * hy);
                lemma_floor_ceil_bounds(c.y as int, (y_max + hy) as int, 2 * hy);
                assert(c.y * (2 * hy) == 2 * c.y * hy) by (nonlinear_arith);
            }
        }
        let mut x = x_lo;
        while x <= x_hi
            invariant
                ax == bx,
                lx == ax,
                rx == ax,
                abs(x_hi as int) <= 2 * bb + 1,
                -(2 * bb + 1) <= x_lo,
                x_lo <= x <= x_hi + 1 || x == x_lo,
                y_min == min(ay as int, by as int),
                y_max == max(ay as int, by as int),
                abs(y_lo as int) <= 2 * bb + 1,
                abs(y_hi as int) <= 2 * bb + 1,
                bb + 1 <= k,
                64 * k <= isize::MAX,
                forall|c: Point2D|
                    (lx < 2 * c.x * hx + hx && 2 * c.x * hx - hx < rx) == (x_lo <= #[trigger] c.x
                        <= x_hi),
                forall|c: Point2D|
                    (y_min < 2 * c.y * hy + hy && 2 * c.y * hy - hy < y_max) == (y_lo
                        <= #[trigger] (1 * (c.y - 0)) <= y_hi),
                forall|c: Point2D| #![trigger cells@.contains(c)]
                    cells@.contains(c) <==> (old(cells)@.contains(c) || (x_lo <= c.x < x
                        && scaled_cell_touched(
                        ax as int,
                        ay as int,
                        bx as int,
                        by as int,
                        hx as int,
                        hy as int,
                        c,
                    ))),
                old(cells)@.len() == 0 ==> cells@.no_duplicates(),
            decreases x_hi + 1 - x,
        {
            let ghost prev = cells@;
            push_column(cells, x, 0, 1, y_lo, y_hi);
            proof {
                assert forall|c: Point2D| #![trigger cells@.contains(c)]
                    cells@.contains(c) <==> (old(cells)@.contains(c) || (x_lo <= c.x < x + 1
                        && scaled_cell_touched(
                        ax as int,
                        ay as int,
                        bx as int,
                        by as int,
                        hx as int,
                        hy as int,
                        c,
                    ))) by {
                    assert(prev.contains(c) == (old(cells)@.contains(c) || (x_lo <= c.x < x
                        && scaled_cell_touched(
                        ax as int,
                        ay as int,
                        bx as int,
                        by as int,
                        hx as int,
                        hy as int,
                        c,
                    ))));
                    assert((lx < 2 * c.x * hx + hx && 2 * c.x * hx - hx < rx) == (x_lo <= c.x
                        <= x_hi));
                    assert((y_min < 2 * c.y * hy + hy && 2 * c.y * hy - hy < y_max) == (y_lo <= (1
                        * (c.y - 0)) <= y_hi));
                }
            }
            x = x + 1;
        }
    } else {
        let s: isize = if ry >= ly {
            1
        } else {
            -1
        };
        let mut x = x_lo;
        while x <= x_hi
            invariant
                ax != bx,
                lx < rx,
                lx == (if ax < bx {
                    ax
                } else {
                    bx
                }),
                s == (if ry >= ly {
                    1isize
                } else {
                    -1isize
                }),
                scaled_fits(lx as int, ly as int, rx as int, ry as int, hx as int, hy as int, bb),
                bb == b@,
                k == (bb + 1) * (bb + 1),
                ly == (if ax < bx {
                    ay
                } else {
                    by
                }),
                rx == (if ax < bx {
                    bx
                } else {
                    ax
                }),
                ry == (if ax < bx {
                    by
                } else {
                    ay
                }),
                abs(x_hi as int) <= 2 * bb + 1,
                -(2 * bb + 1) <= x_lo,
                x_lo <= x <= x_hi + 1 || x == x_lo,
                bb + 1 <= k,
                64 * k <= isize::MAX,
                forall|c: Point2D|
                    (lx < 2 * c.x * hx + hx && 2 * c.x * hx - hx < rx) == (x_lo <= #[trigger] c.x
                        <= x_hi),
                forall|c: Point2D| #![trigger cells@.contains(c)]
                    cells@.contains(c) <==> (old(cells)@.contains(c) || (x_lo <= c.x < x
                        && scaled_cell_touched(
                        ax as int,
                        ay as int,
                        bx as int,
                        by as int,
                        hx as int,
                        hy as int,
                        c,
                    ))),
                old(cells)@.len() == 0 ==> cells@.no_duplicates(),
            decreases x_hi + 1 - x,
        {
            proof {
                let c0 = Point2D { x: x, y: 0 };
                assert(x_lo <= c0.x <= x_hi);
                assert(2 * c0.x * hx == 2 * x * hx);
                assert((2 * x - 1) * hx == 2 * x * hx - hx && (2 * x + 1) * hx == 2 * x * hx + hx)
                    by (nonlinear_arith);
            }
            let (lo, hi) = scaled_column(lx, ly, rx, ry, hx, hy, s, x, b);
            let ghost prev = cells@;
            push_column(cells, x, 0, s, lo, hi);
            proof {
                assert forall|c: Point2D| #![trigger cells@.contains(c)]
                    cells@.contains(c) <==> (old(cells)@.contains(c) || (x_lo <= c.x < x + 1
                        && scaled_cell_touched(
                        ax as int,
                        ay as int,
                        bx as int,
                        by as int,
                        hx as int,
                        hy as int,
                        c,
                    ))) by {
                    assert(prev.contains(c) == (old(cells)@.contains(c) || (x_lo <= c.x < x
                        && scaled_cell_touched(
                        ax as int,
                        ay as int,
                        bx as int,
                        by as int,
                        hx as int,
                        hy as int,
                        c,
                    ))));
                    assert(s * (c.y - 0) == s * c.y);
                    if c.x == x {
                        assert(box_meets_segment(
                            2 * c.x * hx,
                            2 * c.y * hy,
                            hx as int,
                            hy as int,
                            lx as int,
                            ly as int,
                            rx as int,
                            ry as int,
                        ) == scaled_cell_touched(
                            ax as int,
                            ay as int,
                            bx as int,
                            by as int,
                            hx as int,
                            hy as int,
                            c,
                        ));
                    }
                }
            }
            x = x + 1;
        }
    }
}

/// The cell centred on `c`, an open unit square, meets the closed segment
/// from `p1` to `p2`; checked in a grid fine enough to hold both endpoints.
pub open spec fn rational_cell_touched(p1: RationalPoint2D, p2: RationalPoint2D, c: Point2D) -> bool {
    scaled_cell_touched(
        2 * p1.x.num() * p2.x.den(),
        2 * p1.y.num() * p2.y.den(),
        2 * p2.x.num() * p1.x.den(),
        2 * p2.y.num() * p1.y.den(),
        p1.x.den() * p2.x.den(),
        p1.y.den() * p2.y.den(),
        c,
    )
}

/// The largest numerator magnitude among the endpoints' coordinates.
pub open spec fn numerator_bound(p1: RationalPoint2D, p2: RationalPoint2D) -> int {
    max(max(abs(p1.x.num()), abs(p1.y.num())), max(abs(p2.x.num()), abs(p2.y.num())))
}

/// The largest denominator among the endpoints' coordinates.
pub open spec fn denominator_bound(p1: RationalPoint2D, p2: RationalPoint2D) -> int {
    max(max(p1.x.den(), p1.y.den()), max(p2.x.den(), p2.y.den()))
}

/// Numerators and denominators small enough for the sweep's grid to fit in
/// a machine word.
pub open spec fn rational_segment_fits(p1: RationalPoint2D, p2: RationalPoint2D) -> bool {
    let b = 2 * (numerator_bound(p1, p2) + denominator_bound(p1, p2) + 1) * (denominator_bound(
        p1,
        p2,
    ) + 1);
    64 * (b + 1) * (b + 1) <= isize::MAX
}

/// The signed numerator of `r`.
fn signed_numerator(r: &Rational) -> (n: isize)
    requires
        abs(r.num()) <= isize::MAX,
    ensures
        n == r.num(),
{
    let m = r.numerator();
    if r.is_neg() {
        -(m as isize)
    } else {
        m as isize
    }
}

/// The cells whose open unit squares meet the closed segment between two
/// points with rational coordinates. A segment lying along a cell boundary
/// touches neither cell beside it.
pub fn l_infinity_line_rational_endpoints(point1: RationalPoint2D, point2: RationalPoint2D) -> (squares: Vec<Point2D>)
    requires
        rational_segment_fits(point1, point2),
    ensures
        forall|c: Point2D| #![trigger squares@.contains(c)]
            squares@.contains(c) <==> rational_cell_touched(point1, point2, c),
        squares@.no_duplicates(),
{
    let ghost n = numerator_bound(point1, point2);
    let ghost d = denominator_bound(point1, point2);
    let ghost b = 2 * (n + d + 1) * (d + 1);
    proof {
        use_type_invariant(&point1.x);
        use_type_invariant(&point1.y);
        use_type_invariant(&point2.x);
        use_type_invariant(&point2.y);
        point1.x.lemma_valid();
        point1.y.lemma_valid();
        point2.x.lemma_valid();
        point2.y.lemma_valid();
        assert(n >= 0 && d >= 1);
        assert(2 * n <= b && b >= 0) by (nonlinear_arith)
            requires
                b == 2 * (n + d + 1) * (d + 1),
                n >= 0,
                d >= 1,
        ;
        assert(b + 1 <= 64 * (b + 1) * (b + 1)) by (nonlinear_arith)
            requires
                b >= 0,
        ;
        assert forall|u: int, v: int|
            abs(u) <= n && 0 < v <= d implies #[trigger] abs(2 * u * v) <= b && u * v <= b by {
            assert(abs(2 * u * v) <= b && u * v <= b) by (nonlinear_arith)
                requires
                    abs(u) <= n,
                    0 < v <= d,
                    b == 2 * (n + d + 1) * (d + 1),
                    d >= 1,
            ;
        }
        assert forall|u: int, v: int|
            0 < u <= d && 0 < v <= d implies 0 < #[trigger] (u * v) <= b by {
            assert(0 < u * v <= b) by (nonlinear_arith)
                requires
                    0 < u <= d,
                    0 < v <= d,
                    b == 2 * (n + d + 1) * (d + 1),
                    d >= 1,
                    n >= 0,
            ;
        }
        assert(abs(point1.x.num()) <= n && abs(point1.y.num()) <= n);
        assert(abs(point2.x.num()) <= n && abs(point2.y.num()) <= n);
        assert(abs(2 * point1.x.num() * point2.x.den()) <= b);
        assert(abs(2 * point1.y.num() * point2.y.den()) <= b);
        assert(abs(2 * point2.x.num() * point1.x.den()) <= b);
        assert(abs(2 * point2.y.num() * point1.y.den()) <= b);
        assert(0 < point1.x.den() * point2.x.den() <= b);
        assert(0 < point1.y.den() * point2.y.den() <= b);
    }
    let n1x = signed_numerator(&point1.x);
    let n1y = signed_numerator(&point1.y);
    let n2x = signed_numerator(&point2.x);
    let n2y = signed_numerator(&point2.y);
    let d1x = point1.x.denominator() as isize;
    let d1y = point1.y.denominator() as isize;
    let d2x = point2.x.denominator() as isize;
    let d2y = point2.y.denominator() as isize;
    let mut squares: Vec<Point2D> = Vec::new();
    push_scaled_cells(
        &mut squares,
        2 * n1x * d2x,
        2 * n1y * d2y,
        2 * n2x * d1x,
        2 * n2y * d1y,
        d1x * d2x,
        d1y * d2y,
        Ghost(b),
    );
    squares
}

} // verus!
