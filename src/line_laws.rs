//! What holds across the rasterisers: swapping endpoints changes
//! nothing, and widening the band only adds cells.
use vstd::prelude::*;
use crate::ball::lemma_same_distinct_elements;
use crate::line2d::{
    band_high, band_low, cell_touched, in_band, lemma_on_segment_symmetric, on_segment,
};
use crate::line3d::{cube_touched, on_segment_3d, xy, xz, yz};
use crate::sweep::rational_cell_touched;
use crate::point::{Point2D, Point3D, RationalPoint2D, max, min};
use crate::rational::Rational;

verus! {

/// The lattice points on a segment do not depend on which endpoint comes
/// first: the two results hold the same points, each once.
pub proof fn law_points_endpoint_order(p1: Point2D, p2: Point2D, forward: Seq<Point2D>, backward: Seq<Point2D>)
    requires
        forall|c: Point2D| #[trigger] forward.contains(c) <==> on_segment(p1, p2, c),
        forall|c: Point2D| #[trigger] backward.contains(c) <==> on_segment(p2, p1, c),
        forward.no_duplicates(),
        backward.no_duplicates(),
    ensures
        forward.to_multiset() == backward.to_multiset(),
{
    assert forall|c: Point2D| #[trigger] forward.contains(c) <==> backward.contains(c) by {
        lemma_on_segment_symmetric(p1, p2, c);
    }
    lemma_same_distinct_elements(forward, backward);
}

/// The lattice points on a segment in space do not depend on which endpoint
/// comes first: the two results hold the same points, each once.
pub proof fn law_points_3d_endpoint_order(p1: Point3D, p2: Point3D, forward: Seq<Point3D>, backward: Seq<Point3D>)
    requires
        forall|c: Point3D| #[trigger] forward.contains(c) <==> on_segment_3d(p1, p2, c),
        forall|c: Point3D| #[trigger] backward.contains(c) <==> on_segment_3d(p2, p1, c),
        forward.no_duplicates(),
        backward.no_duplicates(),
    ensures
        forward.to_multiset() == backward.to_multiset(),
{
    assert forall|c: Point3D| #[trigger] forward.contains(c) <==> backward.contains(c) by {
        lemma_on_segment_symmetric(xy(p1), xy(p2), xy(c));
        lemma_on_segment_symmetric(xz(p1), xz(p2), xz(c));
        lemma_on_segment_symmetric(yz(p1), yz(p2), yz(c));
    }
    lemma_same_distinct_elements(forward, backward);
}

/// The cells a thickened segment touches do not depend on which endpoint
/// comes first: the two results hold the same cells, each once.
pub proof fn law_cells_endpoint_order(p1: Point2D, p2: Point2D, p: int, q: int, forward: Seq<Point2D>, backward: Seq<Point2D>)
    requires
        forall|c: Point2D| #[trigger] forward.contains(c) <==> cell_touched(p1, p2, p, q, c),
        forall|c: Point2D| #[trigger] backward.contains(c) <==> cell_touched(p2, p1, p, q, c),
        forward.no_duplicates(),
        backward.no_duplicates(),
    ensures
        forward.to_multiset() == backward.to_multiset(),
{
    assert forall|c: Point2D| #[trigger] forward.contains(c) <==> backward.contains(c) by {
        assert(cell_touched(p1, p2, p, q, c) == cell_touched(p2, p1, p, q, c));
    }
    lemma_same_distinct_elements(forward, backward);
}

/// Every lattice point on a segment lies in each of its thickened bands,
/// whatever the half-width `p / q` in `(0, 1/2]`.
pub proof fn law_points_within_cells(p1: Point2D, p2: Point2D, p: int, q: int, c: Point2D)
    requires
        0 < p,
        2 * p <= q,
        on_segment(p1, p2, c),
    ensures
        cell_touched(p1, p2, p, q, c),
{
    if p1.x != p2.x {
        let l = if p1.x < p2.x {
            p1
        } else {
            p2
        };
        let r = if p1.x < p2.x {
            p2
        } else {
            p1
        };
        lemma_on_segment_symmetric(p1, p2, c);
        assert(on_segment(l, r, c));
        let sgn: int = if r.y >= l.y {
            1
        } else {
            -1
        };
        let dx = r.x - l.x;
        let dy = sgn * (r.y - l.y);
        let u = c.x - l.x;
        let v = sgn * (c.y - l.y);
        assert(0 <= u <= dx);
        assert(dy >= 0) by (nonlinear_arith)
            requires
                sgn == 1 ==> r.y >= l.y,
                sgn == -1 ==> r.y < l.y,
                sgn == 1 || sgn == -1,
                dy == sgn * (r.y - l.y),
        ;
        assert(u * dy == v * dx) by (nonlinear_arith)
            requires
                (c.x - l.x) * (r.y - l.y) == (c.y - l.y) * (r.x - l.x),
                sgn == 1 || sgn == -1,
                dy == sgn * (r.y - l.y),
                v == sgn * (c.y - l.y),
                u == c.x - l.x,
                dx == r.x - l.x,
        ;
        assert(band_low(dx, dy, p, q, u, v)) by (nonlinear_arith)
            requires
                u * dy == v * dx,
                0 <= u <= dx,
                dx > 0,
                dy >= 0,
                0 < p,
                2 * p <= q,
        ;
        assert(band_high(dx, dy, p, q, u, v)) by (nonlinear_arith)
            requires
                u * dy == v * dx,
                0 <= u <= dx,
                dx > 0,
                dy >= 0,
                0 < p,
                2 * p <= q,
        ;
    }
}

/// The band grows with its half-width: a cell touched at half-width `p / q`
/// is touched at any larger half-width `p2 / q2` up to one half.
pub proof fn law_cells_grow_with_radius(
    a: Point2D,
    b: Point2D,
    p: int,
    q: int,
    p2: int,
    q2: int,
    c: Point2D,
)
    requires
        0 < p,
        0 < q,
        0 < q2,
        p * q2 <= p2 * q,
        2 * p2 <= q2,
        cell_touched(a, b, p, q, c),
    ensures
        cell_touched(a, b, p2, q2, c),
{
    if a.x != b.x {
        let l = if a.x < b.x {
            a
        } else {
            b
        };
        let r = if a.x < b.x {
            b
        } else {
            a
        };
        let sgn: int = if r.y >= l.y {
            1
        } else {
            -1
        };
        let dx = r.x - l.x;
        let dy = sgn * (r.y - l.y);
        let u = c.x - l.x;
        let v = sgn * (c.y - l.y);
        assert(in_band(dx, dy, p, q, u, v));
        assert(dy >= 0) by (nonlinear_arith)
            requires
                sgn == 1 ==> r.y >= l.y,
                sgn == -1 ==> r.y < l.y,
                sgn == 1 || sgn == -1,
                dy == sgn * (r.y - l.y),
        ;
        let m1 = max(0, u * q - p);
        let m2 = max(0, u * q2 - p2);
        assert(m2 * q <= m1 * q2) by (nonlinear_arith)
            requires
                m1 == max(0, u * q - p),
                m2 == max(0, u * q2 - p2),
                p * q2 <= p2 * q,
                q > 0,
                q2 > 0,
        ;
        assert((v * q + p) * dx * q2 > dy * m1 * q2) by (nonlinear_arith)
            requires
                (v * q + p) * dx > dy * m1,
                q2 > 0,
        ;
        assert(dy * m1 * q2 >= dy * m2 * q) by (nonlinear_arith)
            requires
                m2 * q <= m1 * q2,
                dy >= 0,
        ;
        assert((v * q2 + p2) * dx * q >= (v * q + p) * dx * q2) by (nonlinear_arith)
            requires
                p * q2 <= p2 * q,
                dx > 0,
        ;
        assert(band_low(dx, dy, p2, q2, u, v)) by (nonlinear_arith)
            requires
                (v * q2 + p2) * dx * q > dy * m2 * q,
                m2 == max(0, u * q2 - p2),
                q > 0,
        ;
        let n1 = min(dx * q, u * q + p);
        let n2 = min(dx * q2, u * q2 + p2);
        assert(n1 * q2 <= n2 * q) by (nonlinear_arith)
            requires
                n1 == min(dx * q, u * q + p),
                n2 == min(dx * q2, u * q2 + p2),
                p * q2 <= p2 * q,
                q > 0,
                q2 > 0,
        ;
        assert((v * q - p) * dx * q2 < dy * n1 * q2) by (nonlinear_arith)
            requires
                (v * q - p) * dx < dy * n1,
                q2 > 0,
        ;
        assert(dy * n1 * q2 <= dy * n2 * q) by (nonlinear_arith)
            requires
                n1 * q2 <= n2 * q,
                dy >= 0,
        ;
        assert((v * q2 - p2) * dx * q <= (v * q - p) * dx * q2) by (nonlinear_arith)
            requires
                p * q2 <= p2 * q,
                dx > 0,
        ;
        assert(band_high(dx, dy, p2, q2, u, v)) by (nonlinear_arith)
            requires
                (v * q2 - p2) * dx * q < dy * n2 * q,
                n2 == min(dx * q2, u * q2 + p2),
                q > 0,
        ;
    }
}

/// The cells met by a segment between rational points do not depend on
/// which endpoint comes first: the two results hold the same cells, each once.
pub proof fn law_rational_cells_endpoint_order(p1: RationalPoint2D, p2: RationalPoint2D, forward: Seq<Point2D>, backward: Seq<Point2D>)
    requires
        forall|c: Point2D| #[trigger] forward.contains(c) <==> rational_cell_touched(p1, p2, c),
        forall|c: Point2D| #[trigger] backward.contains(c) <==> rational_cell_touched(p2, p1, c),
        forward.no_duplicates(),
        backward.no_duplicates(),
    ensures
        forward.to_multiset() == backward.to_multiset(),
{
    assert(p1.x.den() * p2.x.den() == p2.x.den() * p1.x.den()) by (nonlinear_arith);
    assert(p1.y.den() * p2.y.den() == p2.y.den() * p1.y.den()) by (nonlinear_arith);
    assert forall|c: Point2D| #[trigger] forward.contains(c) <==> backward.contains(c) by {
        assert(rational_cell_touched(p1, p2, c) == rational_cell_touched(p2, p1, c));
    }
    lemma_same_distinct_elements(forward, backward);
}

/// The cubes met by a segment in space do not depend on which endpoint comes
/// first: the two results hold the same cubes, each once.
pub proof fn law_cubes_endpoint_order(p1: Point3D, p2: Point3D, forward: Seq<Point3D>, backward: Seq<Point3D>)
    requires
        forall|c: Point3D| #[trigger] forward.contains(c) <==> cube_touched(p1, p2, c),
        forall|c: Point3D| #[trigger] backward.contains(c) <==> cube_touched(p2, p1, c),
        forward.no_duplicates(),
        backward.no_duplicates(),
    ensures
        forward.to_multiset() == backward.to_multiset(),
{
    assert forall|c: Point3D| #[trigger] forward.contains(c) <==> backward.contains(c) by {
        assert(cube_touched(p1, p2, c) == cube_touched(p2, p1, c));
    }
    lemma_same_distinct_elements(forward, backward);
}

/// At a half-width of exactly one half, the rational-radius rasteriser and
/// the fixed half-cell rasteriser give the same cells, each once.
pub proof fn law_half_radius_matches_cells(
    p1: Point2D,
    p2: Point2D,
    radius: Rational,
    banded: Seq<Point2D>,
    cells: Seq<Point2D>,
)
    requires
        radius.den() > 0,
        2 * radius.num() == radius.den(),
        forall|c: Point2D|
            #[trigger] banded.contains(c) <==> if radius.num() <= 0 {
                on_segment(p1, p2, c)
            } else if 2 * radius.num() >= radius.den() {
                cell_touched(p1, p2, 1, 2, c)
            } else {
                cell_touched(p1, p2, radius.num(), radius.den(), c)
            },
        forall|c: Point2D| #[trigger] cells.contains(c) <==> cell_touched(p1, p2, 1, 2, c),
        banded.no_duplicates(),
        cells.no_duplicates(),
    ensures
        banded.to_multiset() == cells.to_multiset(),
{
    assert forall|c: Point2D| #[trigger] banded.contains(c) <==> cells.contains(c) by {}
    lemma_same_distinct_elements(banded, cells);
}

} // verus!
