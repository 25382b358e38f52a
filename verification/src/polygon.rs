//! Why the even-odd rule is right for convex outlines.
//!
//! The rule counts how often a ray from a point crosses an outline. Here it
//! is proved that for a convex outline, whichever way it runs and whether or
//! not some of its points lie on a side, the count is odd for every point
//! strictly inside and even for every point strictly outside; and that a
//! point strictly inside lies in every box that holds the outline.

use crate::geometry::Position;
use crate::suburb::{crosses, inside_outline, odd_crossings, side, vertex, Suburb};
use vstd::prelude::*;

verus! {

/// Twice the signed area of the triangle `u`, `w`, `q`: positive if `q`
/// lies to the left of the line from `u` to `w`, negative if to the right.
pub open spec fn orient(u: Position, w: Position, q: Position) -> int {
    (w.x - u.x) * (q.y - u.y) - (w.y - u.y) * (q.x - u.x)
}

/// Whether `v` lies higher than `p`.
pub open spec fn above(p: Position, v: Position) -> bool {
    p.y < v.y
}

/// `orient` of `q` against the edge number `e`, which runs from the point
/// `e - 1` to the point `e`.
pub open spec fn edge_orient(xs: Seq<i32>, ys: Seq<i32>, e: int, q: Position) -> int {
    orient(vertex(xs, ys, e - 1), vertex(xs, ys, e), q)
}

/// Whether the edge number `e` rises from not above `p` to above `p`.
pub open spec fn is_up(xs: Seq<i32>, ys: Seq<i32>, p: Position, e: int) -> bool {
    !above(p, vertex(xs, ys, e - 1)) && above(p, vertex(xs, ys, e))
}

/// Whether the edge number `e` falls from above `p` to not above `p`.
pub open spec fn is_down(xs: Seq<i32>, ys: Seq<i32>, p: Position, e: int) -> bool {
    above(p, vertex(xs, ys, e - 1)) && !above(p, vertex(xs, ys, e))
}

/// Whether the rule counts the edge number `e` for `p`.
pub open spec fn crosses_at(xs: Seq<i32>, ys: Seq<i32>, p: Position, e: int) -> bool {
    crosses(p, vertex(xs, ys, e), vertex(xs, ys, e - 1))
}

/// An outline of at least three edges whose last point is its first.
pub open spec fn is_closed(xs: Seq<i32>, ys: Seq<i32>) -> bool {
    &&& xs.len() == ys.len()
    &&& xs.len() >= 4
    &&& vertex(xs, ys, 0) == vertex(xs, ys, xs.len() - 1)
}

/// The index among the first `m` points of the point that ends the edge
/// number `e` of `m` edges.
pub open spec fn end_of(e: int, m: int) -> int {
    if e == m {
        0
    } else {
        e
    }
}

/// Whether `v` lies in the box between `u` and `w`. For a point on the line
/// through `u` and `w` this is to lie on the edge between them, ends
/// included.
pub open spec fn in_box_of(u: Position, w: Position, v: Position) -> bool {
    &&& (u.x <= v.x <= w.x) || (w.x <= v.x <= u.x)
    &&& (u.y <= v.y <= w.y) || (w.y <= v.y <= u.y)
}

/// Whether `v` does not lie on the edge number `e`.
pub open spec fn clear_of(xs: Seq<i32>, ys: Seq<i32>, e: int, v: Position) -> bool {
    edge_orient(xs, ys, e, v) != 0 || !in_box_of(vertex(xs, ys, e - 1), vertex(xs, ys, e), v)
}

/// A closed outline that runs counter-clockwise around a convex region:
/// every point of the outline lies to the left of or on the line of every
/// edge, and on no edge but those it is an end of. Points of the outline
/// may lie on a side, between two edges along one line.
pub open spec fn convex(xs: Seq<i32>, ys: Seq<i32>) -> bool {
    &&& is_closed(xs, ys)
    &&& forall|e: int, j: int|
        1 <= e <= xs.len() - 1 && 0 <= j < xs.len() - 1 && j != e - 1 && j != end_of(
            e,
            xs.len() - 1,
        ) ==> #[trigger] edge_orient(xs, ys, e, vertex(xs, ys, j)) >= 0 && clear_of(
            xs,
            ys,
            e,
            vertex(xs, ys, j),
        )
}

/// `p` lies strictly to the left of every edge.
pub open spec fn strictly_inside(xs: Seq<i32>, ys: Seq<i32>, p: Position) -> bool {
    forall|e: int| 1 <= e <= xs.len() - 1 ==> #[trigger] edge_orient(xs, ys, e, p) > 0
}

/// `p` lies strictly to the right of some edge.
pub open spec fn strictly_outside(xs: Seq<i32>, ys: Seq<i32>, p: Position) -> bool {
    exists|e: int| 1 <= e <= xs.len() - 1 && #[trigger] edge_orient(xs, ys, e, p) < 0
}

/// The rule counts an edge exactly if the edge rises past `p` with `p` not
/// to its right, or falls past `p` with `p` strictly to its right.
pub proof fn lemma_crosses_by_orient(xs: Seq<i32>, ys: Seq<i32>, p: Position, e: int)
    ensures
        crosses_at(xs, ys, p, e) == ((is_up(xs, ys, p, e) && edge_orient(xs, ys, e, p) >= 0) || (
        is_down(xs, ys, p, e) && edge_orient(xs, ys, e, p) < 0)),
{
    let a = vertex(xs, ys, e);
    let b = vertex(xs, ys, e - 1);
    assert(side(p, a, b) == orient(b, a, p)) by (nonlinear_arith)
        requires
            side(p, a, b) == (p.x - a.x) * (b.y - a.y) - (b.x - a.x) * (p.y - a.y),
            orient(b, a, p) == (a.x - b.x) * (p.y - b.y) - (a.y - b.y) * (p.x - b.x),
    ;
}

/// If none of the first `k` edges but perhaps the edges `i` and `j` is
/// counted, the count is odd exactly if one of the two is counted and the
/// other is not.
pub proof fn lemma_parity_of_two(
    xs: Seq<i32>,
    ys: Seq<i32>,
    p: Position,
    i: int,
    j: int,
    k: nat,
)
    requires
        1 <= i < j,
        forall|e: int| 1 <= e <= k && e != i && e != j ==> !#[trigger] crosses_at(xs, ys, p, e),
    ensures
        odd_crossings(xs, ys, p, k) == ((i <= k && crosses_at(xs, ys, p, i)) != (j <= k
            && crosses_at(xs, ys, p, j))),
    decreases k,
{
    if k > 0 {
        lemma_parity_of_two(xs, ys, p, i, j, (k - 1) as nat);
        if k != i && k != j {
            assert(!crosses_at(xs, ys, p, k as int));
        }
    }
}

/// Between a point not above `p` and a later point above `p` some edge
/// rises past `p`.
pub proof fn lemma_up_between(xs: Seq<i32>, ys: Seq<i32>, p: Position, lo: int, hi: int) -> (e: int)
    requires
        lo < hi,
        !above(p, vertex(xs, ys, lo)),
        above(p, vertex(xs, ys, hi)),
    ensures
        lo < e <= hi,
        is_up(xs, ys, p, e),
    decreases hi - lo,
{
    if above(p, vertex(xs, ys, lo + 1)) {
        lo + 1
    } else {
        lemma_up_between(xs, ys, p, lo + 1, hi)
    }
}

/// Between a point above `p` and a later point not above `p` some edge
/// falls past `p`.
pub proof fn lemma_down_between(xs: Seq<i32>, ys: Seq<i32>, p: Position, lo: int, hi: int) -> (e:
    int)
    requires
        lo < hi,
        above(p, vertex(xs, ys, lo)),
        !above(p, vertex(xs, ys, hi)),
    ensures
        lo < e <= hi,
        is_down(xs, ys, p, e),
    decreases hi - lo,
{
    if !above(p, vertex(xs, ys, lo + 1)) {
        lo + 1
    } else {
        lemma_down_between(xs, ys, p, lo + 1, hi)
    }
}

/// Every point of a convex outline lies to the left of or on the line of
/// every edge.
pub proof fn lemma_points_left_of_edges(xs: Seq<i32>, ys: Seq<i32>, e: int, j: int)
    requires
        convex(xs, ys),
        1 <= e <= xs.len() - 1,
        0 <= j <= xs.len() - 1,
    ensures
        edge_orient(xs, ys, e, vertex(xs, ys, j)) >= 0,
{
    let m = xs.len() - 1;
    let u = vertex(xs, ys, e - 1);
    let w = vertex(xs, ys, e);
    let jj = if j == m {
        0
    } else {
        j
    };
    assert(vertex(xs, ys, jj) == vertex(xs, ys, j));
    if jj == e - 1 {
        assert(orient(u, w, u) == 0) by (nonlinear_arith)
            requires
                orient(u, w, u) == (w.x - u.x) * (u.y - u.y) - (w.y - u.y) * (u.x - u.x),
        ;
    } else if jj == end_of(e, m) {
        assert(vertex(xs, ys, jj) == w);
        assert(orient(u, w, w) == 0) by (nonlinear_arith)
            requires
                orient(u, w, w) == (w.x - u.x) * (w.y - u.y) - (w.y - u.y) * (w.x - u.x),
        ;
    } else {
        assert(edge_orient(xs, ys, e, vertex(xs, ys, jj)) >= 0);
    }
}

/// The x coordinate at which the line through `u` and `w` passes the height
/// `y`, times the rise of the line from `u` to `w`.
pub open spec fn reach(u: Position, w: Position, y: int) -> int {
    u.x * (w.y - u.y) + (w.x - u.x) * (y - u.y)
}

/// The rise from `u` to `w`.
pub open spec fn rise(u: Position, w: Position) -> int {
    w.y - u.y
}

/// For a point at the height `y`, `orient` against an edge is the reach of
/// the edge at that height less the rise of the edge times the x coordinate
/// of the point.
proof fn lemma_orient_at_height(u: Position, w: Position, q: Position)
    ensures
        orient(u, w, q) == reach(u, w, q.y as int) - rise(u, w) * q.x,
{
    let (ux, uy, wx, wy, qx, qy) = (
        u.x as int,
        u.y as int,
        w.x as int,
        w.y as int,
        q.x as int,
        q.y as int,
    );
    assert((wx - ux) * (qy - uy) - (wy - uy) * (qx - ux) == ux * (wy - uy) + (wx - ux) * (qy - uy)
        - (wy - uy) * qx) by (nonlinear_arith);
}

/// `orient` against an edge is a function `k * x + l * y + n` of the point.
proof fn lemma_orient_is_affine(u: Position, w: Position, q: Position) -> (r: (int, int, int))
    ensures
        r.0 == -(w.y - u.y),
        r.1 == w.x - u.x,
        r.2 == (w.y - u.y) * u.x - (w.x - u.x) * u.y,
        orient(u, w, q) == r.0 * q.x + r.1 * q.y + r.2,
{
    let (ux, uy, wx, wy, qx, qy) = (
        u.x as int,
        u.y as int,
        w.x as int,
        w.y as int,
        q.x as int,
        q.y as int,
    );
    let k = -(wy - uy);
    let l = wx - ux;
    let n = (wy - uy) * ux - (wx - ux) * uy;
    assert((wx - ux) * (qy - uy) - (wy - uy) * (qx - ux) == (-(wy - uy)) * qx + (wx - ux) * qy + ((
    wy - uy) * ux - (wx - ux) * uy)) by (nonlinear_arith);
    (k, l, n)
}

/// Where the ends `c` and `d` of one edge lie against another edge decides
/// where the two edges pass the height `y`: the sum on the left, in which
/// each end counts by the height that parts the other end from `y`, is the
/// difference of the reaches of the two edges, each times the rise of the
/// other.
proof fn lemma_ends_against_edge(a: Position, b: Position, c: Position, d: Position, y: int)
    ensures
        (d.y - y) * orient(a, b, c) + (y - c.y) * orient(a, b, d) == rise(c, d) * reach(a, b, y)
            - rise(a, b) * reach(c, d, y),
{
    let (k, l, n) = lemma_orient_is_affine(a, b, c);
    let (k2, l2, n2) = lemma_orient_is_affine(a, b, d);
    let (cx, cy, dx, dy) = (c.x as int, c.y as int, d.x as int, d.y as int);
    let s = dy - y;
    let t = y - cy;
    let oc = orient(a, b, c);
    let od = orient(a, b, d);
    // the left side, sorted by k, l and n
    assert(s * oc == k * (s * cx) + l * (s * cy) + n * s) by (nonlinear_arith)
        requires
            oc == k * cx + l * cy + n,
    ;
    assert(t * od == k * (t * dx) + l * (t * dy) + n * t) by (nonlinear_arith)
        requires
            od == k * dx + l * dy + n,
    ;
    let mx = s * cx + t * dx;
    let my = s * cy + t * dy;
    assert(k * (s * cx) + k * (t * dx) == k * mx) by (nonlinear_arith)
        requires
            mx == s * cx + t * dx,
    ;
    assert(l * (s * cy) + l * (t * dy) == l * my) by (nonlinear_arith)
        requires
            my == s * cy + t * dy,
    ;
    assert(n * s + n * t == n * (dy - cy)) by (nonlinear_arith)
        requires
            s == dy - y,
            t == y - cy,
    ;
    assert(my == y * (dy - cy)) by (nonlinear_arith)
        requires
            my == s * cy + t * dy,
            s == dy - y,
            t == y - cy,
    ;
    assert(mx == reach(c, d, y)) by (nonlinear_arith)
        requires
            mx == s * cx + t * dx,
            s == dy - y,
            t == y - cy,
            reach(c, d, y) == cx * (dy - cy) + (dx - cx) * (y - cy),
    ;
    // the reach of the edge from a to b is l * y + n
    assert(reach(a, b, y) == l * y + n) by (nonlinear_arith)
        requires
            reach(a, b, y) == a.x * (b.y - a.y) + (b.x - a.x) * (y - a.y),
            l == b.x - a.x,
            n == (b.y - a.y) * a.x - (b.x - a.x) * a.y,
    ;
    let e = dy - cy;
    assert(l * (y * e) + n * e == e * (l * y + n)) by (nonlinear_arith);
    assert(k * mx == -(rise(a, b) * mx)) by (nonlinear_arith)
        requires
            k == -rise(a, b),
    ;
}

/// A product of a positive and a positive number is positive, and so on:
/// the signs of products that the proofs below need.
proof fn lemma_sign_of_product(s: int, t: int)
    ensures
        s > 0 && t > 0 ==> s * t > 0,
        s >= 0 && t >= 0 ==> s * t >= 0,
        s <= 0 && t >= 0 ==> s * t <= 0,
        s < 0 && t > 0 ==> s * t < 0,
        s <= 0 && t <= 0 ==> s * t >= 0,
        s < 0 && t < 0 ==> s * t > 0,
        s >= 0 && t <= 0 ==> s * t <= 0,
        s > 0 && t < 0 ==> s * t < 0,
{
    assert(s > 0 && t > 0 ==> s * t > 0) by (nonlinear_arith);
    assert(s >= 0 && t >= 0 ==> s * t >= 0) by (nonlinear_arith);
    assert(s <= 0 && t >= 0 ==> s * t <= 0) by (nonlinear_arith);
    assert(s < 0 && t > 0 ==> s * t < 0) by (nonlinear_arith);
    assert(s <= 0 && t <= 0 ==> s * t >= 0) by (nonlinear_arith);
    assert(s < 0 && t < 0 ==> s * t > 0) by (nonlinear_arith);
    assert(s >= 0 && t <= 0 ==> s * t <= 0) by (nonlinear_arith);
    assert(s > 0 && t < 0 ==> s * t < 0) by (nonlinear_arith);
}

/// A point on the line through `a` and `b` whose height lies between
/// theirs lies in the box between them.
proof fn lemma_on_line_in_box(a: Position, b: Position, c: Position)
    requires
        orient(a, b, c) == 0,
        a.y != b.y,
        (a.y <= c.y <= b.y) || (b.y <= c.y <= a.y),
    ensures
        in_box_of(a, b, c),
{
    let dx = b.x - a.x;
    let dy = b.y - a.y;
    let cx = c.x - a.x;
    let cy = c.y - a.y;
    assert(dx * cy == dy * cx) by (nonlinear_arith)
        requires
            orient(a, b, c) == (b.x - a.x) * (c.y - a.y) - (b.y - a.y) * (c.x - a.x),
            orient(a, b, c) == 0,
            dx == b.x - a.x,
            dy == b.y - a.y,
            cx == c.x - a.x,
            cy == c.y - a.y,
    ;
    // cy lies between 0 and dy, so cx lies between 0 and dx
    assert((0 <= cx <= dx) || (dx <= cx <= 0)) by (nonlinear_arith)
        requires
            dx * cy == dy * cx,
            dy != 0,
            (0 <= cy <= dy) || (dy <= cy <= 0),
    ;
}

/// Two different edges of a convex outline do not both rise past one
/// point: they would pass its height at one place along one line, and an
/// end of one would lie on the other.
pub proof fn lemma_one_up(xs: Seq<i32>, ys: Seq<i32>, p: Position, e: int, f: int)
    requires
        convex(xs, ys),
        1 <= e <= xs.len() - 1,
        1 <= f <= xs.len() - 1,
        is_up(xs, ys, p, e),
        is_up(xs, ys, p, f),
    ensures
        e == f,
{
    if e != f {
        let m = xs.len() - 1;
        let a = vertex(xs, ys, e - 1);
        let b = vertex(xs, ys, e);
        let c = vertex(xs, ys, f - 1);
        let d = vertex(xs, ys, f);
        let y = p.y as int;
        lemma_points_left_of_edges(xs, ys, e, f - 1);
        lemma_points_left_of_edges(xs, ys, e, f);
        lemma_points_left_of_edges(xs, ys, f, e - 1);
        lemma_points_left_of_edges(xs, ys, f, e);
        lemma_ends_against_edge(a, b, c, d, y);
        lemma_ends_against_edge(c, d, a, b, y);
        lemma_sign_of_product(d.y - y, orient(a, b, c));
        lemma_sign_of_product(y - c.y, orient(a, b, d));
        lemma_sign_of_product(b.y - y, orient(c, d, a));
        lemma_sign_of_product(y - a.y, orient(c, d, b));
        // both sums are zero, so the starts lie on the lines of the other edges
        lemma_zero_product(d.y - y, orient(a, b, c));
        lemma_zero_product(b.y - y, orient(c, d, a));
        assert(orient(a, b, c) == 0);
        assert(orient(c, d, a) == 0);
        // the start of neither edge is an end of the other
        assert(f - 1 != end_of(e, m)) by {
            if f - 1 == end_of(e, m) {
                assert(c == b);
            }
        }
        assert(e - 1 != end_of(f, m)) by {
            if e - 1 == end_of(f, m) {
                assert(a == d);
            }
        }
        assert(edge_orient(xs, ys, e, vertex(xs, ys, f - 1)) >= 0 && clear_of(xs, ys, e, c));
        assert(edge_orient(xs, ys, f, vertex(xs, ys, e - 1)) >= 0 && clear_of(xs, ys, f, a));
        if a.y <= c.y {
            lemma_on_line_in_box(a, b, c);
        } else {
            lemma_on_line_in_box(c, d, a);
        }
    }
}

/// Two different edges of a convex outline do not both fall past one
/// point.
pub proof fn lemma_one_down(xs: Seq<i32>, ys: Seq<i32>, p: Position, e: int, f: int)
    requires
        convex(xs, ys),
        1 <= e <= xs.len() - 1,
        1 <= f <= xs.len() - 1,
        is_down(xs, ys, p, e),
        is_down(xs, ys, p, f),
    ensures
        e == f,
{
    if e != f {
        let m = xs.len() - 1;
        let a = vertex(xs, ys, e - 1);
        let b = vertex(xs, ys, e);
        let c = vertex(xs, ys, f - 1);
        let d = vertex(xs, ys, f);
        let y = p.y as int;
        lemma_points_left_of_edges(xs, ys, e, f - 1);
        lemma_points_left_of_edges(xs, ys, e, f);
        lemma_points_left_of_edges(xs, ys, f, e - 1);
        lemma_points_left_of_edges(xs, ys, f, e);
        lemma_ends_against_edge(a, b, c, d, y);
        lemma_ends_against_edge(c, d, a, b, y);
        lemma_sign_of_product(d.y - y, orient(a, b, c));
        lemma_sign_of_product(y - c.y, orient(a, b, d));
        lemma_sign_of_product(b.y - y, orient(c, d, a));
        lemma_sign_of_product(y - a.y, orient(c, d, b));
        // both sums are zero, so the ends lie on the lines of the other edges
        lemma_zero_product(c.y - y, orient(a, b, d));
        lemma_zero_product(a.y - y, orient(c, d, b));
        assert((y - c.y) * orient(a, b, d) == -((c.y - y) * orient(a, b, d))) by (nonlinear_arith);
        assert((y - a.y) * orient(c, d, b) == -((a.y - y) * orient(c, d, b))) by (nonlinear_arith);
        assert(orient(a, b, d) == 0);
        assert(orient(c, d, b) == 0);
        // the end of neither edge is an end of the other
        let jd = end_of(f, m);
        let jb = end_of(e, m);
        assert(vertex(xs, ys, jd) == d);
        assert(vertex(xs, ys, jb) == b);
        assert(jd != e - 1) by {
            if jd == e - 1 {
                assert(d == a);
            }
        }
        assert(jb != f - 1) by {
            if jb == f - 1 {
                assert(b == c);
            }
        }
        assert(edge_orient(xs, ys, e, vertex(xs, ys, jd)) >= 0 && clear_of(xs, ys, e, d));
        assert(edge_orient(xs, ys, f, vertex(xs, ys, jb)) >= 0 && clear_of(xs, ys, f, b));
        if b.y <= d.y {
            lemma_on_line_in_box(a, b, d);
        } else {
            lemma_on_line_in_box(c, d, b);
        }
    }
}

/// The index of the highest of the first `k` points; of several, the one
/// farthest left.
pub open spec fn top_index(xs: Seq<i32>, ys: Seq<i32>, k: int) -> int
    decreases k,
{
    if k <= 1 {
        0
    } else {
        let t = top_index(xs, ys, k - 1);
        if ys[k - 1] > ys[t] || (ys[k - 1] == ys[t] && xs[k - 1] < xs[t]) {
            k - 1
        } else {
            t
        }
    }
}

/// The index of the lowest of the first `k` points; of several, the one
/// farthest right.
pub open spec fn bottom_index(xs: Seq<i32>, ys: Seq<i32>, k: int) -> int
    decreases k,
{
    if k <= 1 {
        0
    } else {
        let t = bottom_index(xs, ys, k - 1);
        if ys[k - 1] < ys[t] || (ys[k - 1] == ys[t] && xs[k - 1] > xs[t]) {
            k - 1
        } else {
            t
        }
    }
}

proof fn lemma_top_index(xs: Seq<i32>, ys: Seq<i32>, k: int)
    requires
        1 <= k,
    ensures
        0 <= top_index(xs, ys, k) < k,
        forall|j: int|
            0 <= j < k ==> (#[trigger] ys[j]) < ys[top_index(xs, ys, k)] || (ys[j] == ys[top_index(
                xs,
                ys,
                k,
            )] && xs[j] >= xs[top_index(xs, ys, k)]),
    decreases k,
{
    if k > 1 {
        lemma_top_index(xs, ys, k - 1);
    }
}

proof fn lemma_bottom_index(xs: Seq<i32>, ys: Seq<i32>, k: int)
    requires
        1 <= k,
    ensures
        0 <= bottom_index(xs, ys, k) < k,
        forall|j: int|
            0 <= j < k ==> (#[trigger] ys[j]) > ys[bottom_index(xs, ys, k)] || (ys[j]
                == ys[bottom_index(xs, ys, k)] && xs[j] <= xs[bottom_index(xs, ys, k)]),
    decreases k,
{
    if k > 1 {
        lemma_bottom_index(xs, ys, k - 1);
    }
}

/// At a corner `t` with the edge from `r` coming in and the edge to `n`
/// going out, what `orient` says of a point `p` against the two edges and of
/// the turn at the corner are bound together.
proof fn lemma_corner(r: Position, t: Position, n: Position, p: Position)
    ensures
        orient(r, t, p) * (-(n.y - t.y)) + orient(t, n, p) * (t.y - r.y) == -((p.y - t.y) * orient(
            r,
            t,
            n,
        )),
        p.y == t.y && t.y == r.y ==> orient(r, t, p) == 0,
        t.y == r.y ==> orient(r, t, p) == (t.x - r.x) * (p.y - t.y),
{
    let (ux, uy) = (t.x - r.x, t.y - r.y);
    let (wx, wy) = (n.x - t.x, n.y - t.y);
    let (qx, qy) = (p.x - t.x, p.y - t.y);
    assert(orient(r, t, p) == ux * qy - uy * qx) by (nonlinear_arith)
        requires
            orient(r, t, p) == (t.x - r.x) * (p.y - r.y) - (t.y - r.y) * (p.x - r.x),
            ux == t.x - r.x,
            uy == t.y - r.y,
            qx == p.x - t.x,
            qy == p.y - t.y,
    ;
    assert(orient(t, n, p) == wx * qy - wy * qx);
    assert(orient(r, t, n) == ux * wy - uy * wx) by (nonlinear_arith)
        requires
            orient(r, t, n) == (t.x - r.x) * (n.y - r.y) - (t.y - r.y) * (n.x - r.x),
            ux == t.x - r.x,
            uy == t.y - r.y,
            wx == n.x - t.x,
            wy == n.y - t.y,
    ;
    let (a1, a2, b1, b2, c1, c2) = (ux * qy, uy * qx, wx * qy, wy * qx, ux * wy, uy * wx);
    assert((a1 - a2) * (-wy) == -(a1 * wy) + a2 * wy) by (nonlinear_arith);
    assert((b1 - b2) * uy == b1 * uy - b2 * uy) by (nonlinear_arith);
    assert(a2 * wy == b2 * uy) by (nonlinear_arith)
        requires
            a2 == uy * qx,
            b2 == wy * qx,
    ;
    assert(a1 * wy == qy * c1) by (nonlinear_arith)
        requires
            a1 == ux * qy,
            c1 == ux * wy,
    ;
    assert(b1 * uy == qy * c2) by (nonlinear_arith)
        requires
            b1 == wx * qy,
            c2 == uy * wx,
    ;
    assert(-(qy * c1) + qy * c2 == -(qy * (c1 - c2))) by (nonlinear_arith);
    if p.y == t.y && t.y == r.y {
        assert(ux * qy - uy * qx == 0) by (nonlinear_arith)
            requires
                qy == 0,
                uy == 0,
        ;
    }
    if t.y == r.y {
        assert(ux * qy - uy * qx == ux * qy) by (nonlinear_arith)
            requires
                uy == 0,
        ;
    }
}

/// What the corner at the point `t` of a convex outline gives: the edge
/// that comes in, the edge that goes out, and no right turn between them.
proof fn lemma_corner_of_outline(xs: Seq<i32>, ys: Seq<i32>, t: int) -> (edges: (int, int))
    requires
        convex(xs, ys),
        0 <= t < xs.len() - 1,
    ensures
        1 <= edges.0 <= xs.len() - 1,
        1 <= edges.1 <= xs.len() - 1,
        vertex(xs, ys, edges.0) == vertex(xs, ys, t),
        vertex(xs, ys, edges.1 - 1) == vertex(xs, ys, t),
        0 <= edges.0 - 1 < xs.len() - 1,
        orient(
            vertex(xs, ys, edges.0 - 1),
            vertex(xs, ys, t),
            vertex(xs, ys, edges.1),
        ) >= 0,
{
    let m = xs.len() - 1;
    let e_in = if t == 0 {
        m
    } else {
        t
    };
    let e_out = t + 1;
    lemma_points_left_of_edges(xs, ys, e_in, e_out);
    (e_in, e_out)
}

/// A point strictly inside a convex outline has a point of the outline
/// above it.
pub proof fn lemma_inside_is_below_the_top(xs: Seq<i32>, ys: Seq<i32>, p: Position) -> (j: int)
    requires
        convex(xs, ys),
        strictly_inside(xs, ys, p),
    ensures
        0 <= j < xs.len() - 1,
        above(p, vertex(xs, ys, j)),
{
    let m = xs.len() - 1;
    lemma_top_index(xs, ys, m);
    let t = top_index(xs, ys, m);
    if !above(p, vertex(xs, ys, t)) {
        let (e_in, e_out) = lemma_corner_of_outline(xs, ys, t);
        let r = vertex(xs, ys, e_in - 1);
        let top = vertex(xs, ys, t);
        let n = vertex(xs, ys, e_out);
        assert(edge_orient(xs, ys, e_in, p) > 0);
        assert(edge_orient(xs, ys, e_out, p) > 0);
        assert(ys[e_in - 1] <= ys[t]);
        assert(n.y <= top.y) by {
            let next = end_of(e_out, m);
            assert(vertex(xs, ys, next) == n);
            assert(ys[next] <= ys[t]);
        }
        lemma_corner(r, top, n, p);
        lemma_sign_of_product(orient(r, top, p), -(n.y - top.y));
        lemma_sign_of_product(orient(top, n, p), top.y - r.y);
        lemma_sign_of_product(p.y - top.y, orient(r, top, n));
        // the edge that comes in is level, and comes from the left
        lemma_zero_product(orient(top, n, p), top.y - r.y);
        assert(top.y == r.y);
        lemma_sign_of_product(top.x - r.x, p.y - top.y);
        assert(r.x < top.x);
        assert(xs[e_in - 1] >= xs[t]);
    }
    t
}

/// A point strictly inside a convex outline has a point of the outline
/// that is not above it.
pub proof fn lemma_inside_is_above_the_bottom(xs: Seq<i32>, ys: Seq<i32>, p: Position) -> (j: int)
    requires
        convex(xs, ys),
        strictly_inside(xs, ys, p),
    ensures
        0 <= j < xs.len() - 1,
        !above(p, vertex(xs, ys, j)),
{
    let m = xs.len() - 1;
    lemma_bottom_index(xs, ys, m);
    let t = bottom_index(xs, ys, m);
    if above(p, vertex(xs, ys, t)) {
        let (e_in, e_out) = lemma_corner_of_outline(xs, ys, t);
        let r = vertex(xs, ys, e_in - 1);
        let bottom = vertex(xs, ys, t);
        let n = vertex(xs, ys, e_out);
        assert(edge_orient(xs, ys, e_in, p) > 0);
        assert(edge_orient(xs, ys, e_out, p) > 0);
        assert(ys[e_in - 1] >= ys[t]);
        assert(n.y >= bottom.y) by {
            let next = end_of(e_out, m);
            assert(vertex(xs, ys, next) == n);
            assert(ys[next] >= ys[t]);
        }
        lemma_corner(r, bottom, n, p);
        lemma_sign_of_product(orient(r, bottom, p), -(n.y - bottom.y));
        lemma_sign_of_product(orient(bottom, n, p), bottom.y - r.y);
        lemma_sign_of_product(p.y - bottom.y, orient(r, bottom, n));
        // the edge that comes in is level, and comes from the right
        lemma_zero_product(orient(bottom, n, p), bottom.y - r.y);
        assert(bottom.y == r.y);
        lemma_sign_of_product(bottom.x - r.x, p.y - bottom.y);
        assert(r.x > bottom.x);
        assert(xs[e_in - 1] <= xs[t]);
    }
    t
}

/// A product of a positive number and another is zero only if the other is.
proof fn lemma_zero_product(s: int, t: int)
    requires
        s > 0,
    ensures
        s * t == 0 ==> t == 0,
{
    assert(s * t == 0 ==> t == 0) by (nonlinear_arith)
        requires
            s > 0,
    ;
}

/// **A point strictly inside a convex polygon is in.** For a strictly
/// convex outline that runs counter-clockwise and a point strictly to the
/// left of all its edges, the even-odd rule says "inside".
pub proof fn lemma_inside_convex_is_inside(xs: Seq<i32>, ys: Seq<i32>, p: Position)
    requires
        convex(xs, ys),
        strictly_inside(xs, ys, p),
    ensures
        inside_outline(xs, ys, p),
{
    let m = xs.len() - 1;
    let high = lemma_inside_is_below_the_top(xs, ys, p);
    let low = lemma_inside_is_above_the_bottom(xs, ys, p);
    // an edge that rises past p
    let up = if above(p, vertex(xs, ys, 0)) {
        lemma_up_between(xs, ys, p, low, m)
    } else {
        lemma_up_between(xs, ys, p, 0, high)
    };
    // no other edge is counted
    assert forall|e: int| 1 <= e <= m && e != up && e != m + 1 implies !#[trigger] crosses_at(
        xs,
        ys,
        p,
        e,
    ) by {
        lemma_crosses_by_orient(xs, ys, p, e);
        assert(edge_orient(xs, ys, e, p) > 0);
        if is_up(xs, ys, p, e) {
            lemma_one_up(xs, ys, p, e, up);
        }
    }
    lemma_crosses_by_orient(xs, ys, p, up);
    assert(edge_orient(xs, ys, up, p) > 0);
    lemma_parity_of_two(xs, ys, p, up, m + 1, m as nat);
}

/// Where an edge from `a` up to `b` and an edge from `c` down to `d` both
/// pass the height of `p`, and `c` and `d` lie to the left of or on the
/// rising edge, `p` is not strictly to the right of both edges: the falling
/// edge passes the height of `p` no farther right than the rising one.
proof fn lemma_not_right_of_both(a: Position, b: Position, c: Position, d: Position, p: Position)
    requires
        a.y <= p.y < b.y,
        d.y <= p.y < c.y,
        orient(a, b, c) >= 0,
        orient(a, b, d) >= 0,
    ensures
        !(orient(a, b, p) < 0 && orient(c, d, p) < 0),
{
    let y = p.y as int;
    let px = p.x as int;
    let (dab, dcd) = (rise(a, b), rise(c, d));
    let (rab, rcd) = (reach(a, b, y), reach(c, d, y));
    lemma_orient_at_height(a, b, p);
    lemma_orient_at_height(c, d, p);
    lemma_ends_against_edge(a, b, c, d, y);
    lemma_sign_of_product(d.y - y, orient(a, b, c));
    lemma_sign_of_product(y - c.y, orient(a, b, d));
    let w = dcd * rab - dab * rcd;
    assert(w <= 0);
    if orient(a, b, p) < 0 && orient(c, d, p) < 0 {
        // rab < dab * px and rcd < dcd * px
        let s1 = dab * px - rab;
        let s2 = dcd * px - rcd;
        assert(s1 > 0 && s2 > 0);
        lemma_sign_of_product(dcd, s1);
        lemma_sign_of_product(dab, s2);
        assert(w == dab * s2 - dcd * s1) by (nonlinear_arith)
            requires
                w == dcd * rab - dab * rcd,
                s1 == dab * px - rab,
                s2 == dcd * px - rcd,
        ;
    }
}

/// Where an edge from `a` up to `b` and an edge from `c` down to `d` both
/// pass the height of `p`, `p` is to the left of or on both, and the four
/// ends are to the left of or on a third edge from `e` to `f`, then `p` is
/// to the left of or on the third edge too.
proof fn lemma_between_is_within(
    a: Position,
    b: Position,
    c: Position,
    d: Position,
    e: Position,
    f: Position,
    p: Position,
)
    requires
        a.y <= p.y < b.y,
        d.y <= p.y < c.y,
        orient(a, b, p) >= 0,
        orient(c, d, p) >= 0,
        orient(e, f, a) >= 0,
        orient(e, f, b) >= 0,
        orient(e, f, c) >= 0,
        orient(e, f, d) >= 0,
    ensures
        orient(e, f, p) >= 0,
{
    let y = p.y as int;
    let px = p.x as int;
    let (dab, dcd, def) = (rise(a, b), rise(c, d), rise(e, f));
    let (rab, rcd, ref_) = (reach(a, b, y), reach(c, d, y), reach(e, f, y));
    lemma_orient_at_height(a, b, p);
    lemma_orient_at_height(c, d, p);
    lemma_orient_at_height(e, f, p);
    let s1 = orient(a, b, p);
    let s2 = orient(c, d, p);
    let o = orient(e, f, p);
    lemma_ends_against_edge(e, f, a, b, y);
    lemma_ends_against_edge(e, f, c, d, y);
    let g1 = (b.y - y) * orient(e, f, a) + (y - a.y) * orient(e, f, b);
    let g2 = (d.y - y) * orient(e, f, c) + (y - c.y) * orient(e, f, d);
    lemma_sign_of_product(b.y - y, orient(e, f, a));
    lemma_sign_of_product(y - a.y, orient(e, f, b));
    lemma_sign_of_product(d.y - y, orient(e, f, c));
    lemma_sign_of_product(y - c.y, orient(e, f, d));
    assert(g1 >= 0);
    assert(g2 <= 0);
    // g1 = dab * ref - def * rab and g2 = dcd * ref - def * rcd
    assert(g1 == dab * o - def * s1) by (nonlinear_arith)
        requires
            g1 == dab * ref_ - def * rab,
            o == ref_ - def * px,
            s1 == rab - dab * px,
    ;
    assert(g2 == dcd * o - def * s2) by (nonlinear_arith)
        requires
            g2 == dcd * ref_ - def * rcd,
            o == ref_ - def * px,
            s2 == rcd - dcd * px,
    ;
    let width = dab * s2 - dcd * s1;
    lemma_sign_of_product(dab, s2);
    lemma_sign_of_product(dcd, s1);
    assert(width >= 0);
    assert(o * width == g1 * s2 - g2 * s1) by (nonlinear_arith)
        requires
            g1 == dab * o - def * s1,
            g2 == dcd * o - def * s2,
            width == dab * s2 - dcd * s1,
    ;
    lemma_sign_of_product(g1, s2);
    lemma_sign_of_product(g2, s1);
    assert(o * width >= 0);
    if width > 0 {
        if o < 0 {
            lemma_sign_of_product(o, width);
        }
    } else {
        // both s1 and s2 are zero
        if s1 > 0 {
            lemma_sign_of_product(dcd, s1);
        }
        assert(s1 == 0);
        assert(dab * o == g1) by (nonlinear_arith)
            requires
                g1 == dab * o - def * s1,
                s1 == 0,
        ;
        if o < 0 {
            lemma_sign_of_product(o, dab);
            assert(dab * o == o * dab) by (nonlinear_arith);
        }
    }
}

/// **A point strictly outside a convex polygon is out.** For a strictly
/// convex outline that runs counter-clockwise and a point strictly to the
/// right of one of its edges, the even-odd rule says "outside".
pub proof fn lemma_outside_convex_is_outside(xs: Seq<i32>, ys: Seq<i32>, p: Position)
    requires
        convex(xs, ys),
        strictly_outside(xs, ys, p),
    ensures
        !inside_outline(xs, ys, p),
{
    let m = xs.len() - 1;
    if exists|e: int| 1 <= e <= m && #[trigger] is_up(xs, ys, p, e) {
        let up = choose|e: int| 1 <= e <= m && #[trigger] is_up(xs, ys, p, e);
        // then an edge falls past p as well
        let down = if above(p, vertex(xs, ys, 0)) {
            lemma_down_between(xs, ys, p, 0, up - 1)
        } else {
            lemma_down_between(xs, ys, p, up, m)
        };
        let a = vertex(xs, ys, up - 1);
        let b = vertex(xs, ys, up);
        let c = vertex(xs, ys, down - 1);
        let d = vertex(xs, ys, down);
        assert forall|e: int| 1 <= e <= m && e != up && e != down implies !#[trigger] crosses_at(
            xs,
            ys,
            p,
            e,
        ) by {
            lemma_crosses_by_orient(xs, ys, p, e);
            if is_up(xs, ys, p, e) {
                lemma_one_up(xs, ys, p, e, up);
            }
            if is_down(xs, ys, p, e) {
                lemma_one_down(xs, ys, p, e, down);
            }
        }
        lemma_crosses_by_orient(xs, ys, p, up);
        lemma_crosses_by_orient(xs, ys, p, down);
        // the two edges are counted together or not at all
        lemma_points_left_of_edges(xs, ys, up, down - 1);
        lemma_points_left_of_edges(xs, ys, up, down);
        lemma_not_right_of_both(a, b, c, d, p);
        let out = choose|e: int| 1 <= e <= m && #[trigger] edge_orient(xs, ys, e, p) < 0;
        if edge_orient(xs, ys, up, p) >= 0 && edge_orient(xs, ys, down, p) >= 0 {
            lemma_points_left_of_edges(xs, ys, out, up - 1);
            lemma_points_left_of_edges(xs, ys, out, up);
            lemma_points_left_of_edges(xs, ys, out, down - 1);
            lemma_points_left_of_edges(xs, ys, out, down);
            lemma_between_is_within(
                a,
                b,
                c,
                d,
                vertex(xs, ys, out - 1),
                vertex(xs, ys, out),
                p,
            );
        }
        assert(crosses_at(xs, ys, p, up) == crosses_at(xs, ys, p, down));
        if up < down {
            lemma_parity_of_two(xs, ys, p, up, down, m as nat);
        } else {
            lemma_parity_of_two(xs, ys, p, down, up, m as nat);
        }
    } else {
        // no edge rises past p; then none falls past p either
        assert forall|e: int| 1 <= e <= m
            && e != m + 1
            && e != m + 2 implies !#[trigger] crosses_at(
            xs,
            ys,
            p,
            e,
        ) by {
            lemma_crosses_by_orient(xs, ys, p, e);
            assert(!is_up(xs, ys, p, e));
            if is_down(xs, ys, p, e) {
                if above(p, vertex(xs, ys, m)) {
                    let up = lemma_up_between(xs, ys, p, e, m);
                    assert(is_up(xs, ys, p, up));
                } else {
                    let up = lemma_up_between(xs, ys, p, 0, e - 1);
                    assert(is_up(xs, ys, p, up));
                }
            }
        }
        lemma_parity_of_two(xs, ys, p, m + 1, m + 2, m as nat);
    }
}

/// `s` read from its last item to its first.
pub open spec fn reversed(s: Seq<i32>) -> Seq<i32> {
    Seq::new(s.len(), |i: int| s[s.len() - 1 - i])
}

/// A closed outline that runs clockwise around a convex region: every
/// point of the outline lies to the right of or on the line of every edge,
/// and on no edge but those it is an end of.
pub open spec fn convex_clockwise(xs: Seq<i32>, ys: Seq<i32>) -> bool {
    &&& is_closed(xs, ys)
    &&& forall|e: int, j: int|
        1 <= e <= xs.len() - 1 && 0 <= j < xs.len() - 1 && j != e - 1 && j != end_of(
            e,
            xs.len() - 1,
        ) ==> #[trigger] edge_orient(xs, ys, e, vertex(xs, ys, j)) <= 0 && clear_of(
            xs,
            ys,
            e,
            vertex(xs, ys, j),
        )
}

/// `p` lies strictly to the right of every edge.
pub open spec fn strictly_inside_clockwise(xs: Seq<i32>, ys: Seq<i32>, p: Position) -> bool {
    forall|e: int| 1 <= e <= xs.len() - 1 ==> #[trigger] edge_orient(xs, ys, e, p) < 0
}

/// `p` lies strictly to the left of some edge.
pub open spec fn strictly_outside_clockwise(xs: Seq<i32>, ys: Seq<i32>, p: Position) -> bool {
    exists|e: int| 1 <= e <= xs.len() - 1 && #[trigger] edge_orient(xs, ys, e, p) > 0
}

/// Whether the rule counts every edge the same whichever of its ends is
/// named first.
pub open spec fn counts_alike(xs: Seq<i32>, ys: Seq<i32>, p: Position) -> bool {
    forall|e: int|
        1 <= e <= xs.len() - 1 ==> #[trigger] crosses_at(xs, ys, p, e) == crosses(
            p,
            vertex(xs, ys, e - 1),
            vertex(xs, ys, e),
        )
}

/// Whether the rule counts an odd number of the edges from number `lo + 1`
/// to number `hi`.
pub open spec fn odd_between(xs: Seq<i32>, ys: Seq<i32>, p: Position, lo: int, hi: int) -> bool
    decreases hi - lo,
{
    if hi <= lo {
        false
    } else {
        odd_between(xs, ys, p, lo, hi - 1) != crosses_at(xs, ys, p, hi)
    }
}

proof fn lemma_odd_from_first(xs: Seq<i32>, ys: Seq<i32>, p: Position, k: nat)
    ensures
        odd_crossings(xs, ys, p, k) == odd_between(xs, ys, p, 0, k as int),
    decreases k,
{
    if k > 0 {
        lemma_odd_from_first(xs, ys, p, (k - 1) as nat);
    }
}

proof fn lemma_odd_without_lowest(xs: Seq<i32>, ys: Seq<i32>, p: Position, lo: int, hi: int)
    requires
        lo < hi,
    ensures
        odd_between(xs, ys, p, lo, hi) == (crosses_at(xs, ys, p, lo + 1) != odd_between(
            xs,
            ys,
            p,
            lo + 1,
            hi,
        )),
    decreases hi - lo,
{
    if lo + 1 < hi {
        lemma_odd_without_lowest(xs, ys, p, lo, hi - 1);
        assert(odd_between(xs, ys, p, lo + 1, hi) == (odd_between(xs, ys, p, lo + 1, hi - 1)
            != crosses_at(xs, ys, p, hi)));
    } else {
        assert(!odd_between(xs, ys, p, lo, hi - 1));
        assert(!odd_between(xs, ys, p, lo + 1, hi));
    }
}

/// Where every edge is counted alike from both ends, the outline read
/// backwards gives the same count of its first `k` edges as the outline
/// gives of its last `k`.
proof fn lemma_odd_of_reversed(xs: Seq<i32>, ys: Seq<i32>, p: Position, k: nat)
    requires
        xs.len() == ys.len(),
        k <= xs.len() - 1,
        counts_alike(xs, ys, p),
    ensures
        odd_crossings(reversed(xs), reversed(ys), p, k) == odd_between(
            xs,
            ys,
            p,
            xs.len() - 1 - k,
            xs.len() - 1,
        ),
    decreases k,
{
    let m = xs.len() - 1;
    if k > 0 {
        lemma_odd_of_reversed(xs, ys, p, (k - 1) as nat);
        lemma_odd_without_lowest(xs, ys, p, m - k, m);
        let e = m - k + 1;
        assert(vertex(reversed(xs), reversed(ys), k as int) == vertex(xs, ys, e - 1));
        assert(vertex(reversed(xs), reversed(ys), k - 1) == vertex(xs, ys, e));
        assert(crosses_at(xs, ys, p, e) == crosses(p, vertex(xs, ys, e - 1), vertex(xs, ys, e)));
    }
}

/// Where every edge is counted alike from both ends, the rule says the
/// same of an outline and of the outline read backwards.
pub proof fn lemma_reversed_outline(xs: Seq<i32>, ys: Seq<i32>, p: Position)
    requires
        xs.len() == ys.len(),
        counts_alike(xs, ys, p),
    ensures
        inside_outline(reversed(xs), reversed(ys), p) == inside_outline(xs, ys, p),
{
    if xs.len() >= 1 {
        let m = (xs.len() - 1) as nat;
        lemma_odd_of_reversed(xs, ys, p, m);
        lemma_odd_from_first(xs, ys, p, m);
    }
}

/// Swapping the ends of an edge turns the sign of `orient`.
proof fn lemma_orient_swapped(u: Position, w: Position, q: Position)
    ensures
        orient(w, u, q) == -orient(u, w, q),
{
    let (ux, uy, wx, wy, qx, qy) = (
        u.x as int,
        u.y as int,
        w.x as int,
        w.y as int,
        q.x as int,
        q.y as int,
    );
    assert((ux - wx) * (qy - wy) - (uy - wy) * (qx - wx) == -((wx - ux) * (qy - uy) - (wy - uy) * (
    qx - ux))) by (nonlinear_arith);
}

/// The rule counts an edge alike from both ends unless the edge passes the
/// height of `p` and `p` lies on its line.
proof fn lemma_crosses_alike(p: Position, a: Position, b: Position)
    requires
        (p.y < a.y) == (p.y < b.y) || orient(b, a, p) != 0,
    ensures
        crosses(p, a, b) == crosses(p, b, a),
{
    lemma_orient_swapped(b, a, p);
    assert(side(p, a, b) == orient(b, a, p)) by (nonlinear_arith)
        requires
            side(p, a, b) == (p.x - a.x) * (b.y - a.y) - (b.x - a.x) * (p.y - a.y),
            orient(b, a, p) == (a.x - b.x) * (p.y - b.y) - (a.y - b.y) * (p.x - b.x),
    ;
    assert(side(p, b, a) == orient(a, b, p)) by (nonlinear_arith)
        requires
            side(p, b, a) == (p.x - b.x) * (a.y - b.y) - (a.x - b.x) * (p.y - b.y),
            orient(a, b, p) == (b.x - a.x) * (p.y - a.y) - (b.y - a.y) * (p.x - a.x),
    ;
}

/// A point on an edge of a convex outline, at a height that the
/// edge passes, lies to the left of or on every edge.
proof fn lemma_on_edge_is_within(xs: Seq<i32>, ys: Seq<i32>, p: Position, e: int, f: int)
    requires
        convex(xs, ys),
        1 <= e <= xs.len() - 1,
        1 <= f <= xs.len() - 1,
        is_up(xs, ys, p, e) || is_down(xs, ys, p, e),
        edge_orient(xs, ys, e, p) == 0,
    ensures
        edge_orient(xs, ys, f, p) >= 0,
{
    let a = vertex(xs, ys, e - 1);
    let b = vertex(xs, ys, e);
    let u = vertex(xs, ys, f - 1);
    let w = vertex(xs, ys, f);
    let y = p.y as int;
    let px = p.x as int;
    lemma_points_left_of_edges(xs, ys, f, e - 1);
    lemma_points_left_of_edges(xs, ys, f, e);
    lemma_orient_at_height(a, b, p);
    lemma_orient_at_height(u, w, p);
    lemma_ends_against_edge(u, w, a, b, y);
    let g = (b.y - y) * orient(u, w, a) + (y - a.y) * orient(u, w, b);
    lemma_sign_of_product(b.y - y, orient(u, w, a));
    lemma_sign_of_product(y - a.y, orient(u, w, b));
    let o = orient(u, w, p);
    let (dab, duw) = (rise(a, b), rise(u, w));
    let (rab, ruw) = (reach(a, b, y), reach(u, w, y));
    assert(g == dab * o) by (nonlinear_arith)
        requires
            g == dab * ruw - duw * rab,
            o == ruw - duw * px,
            0 == rab - dab * px,
    ;
    if o < 0 {
        lemma_sign_of_product(dab, o);
    }
}

/// For a point strictly inside or strictly outside a convex
/// outline, the rule counts every edge alike from both ends.
proof fn lemma_counts_alike(xs: Seq<i32>, ys: Seq<i32>, p: Position)
    requires
        convex(xs, ys),
        strictly_inside(xs, ys, p) || strictly_outside(xs, ys, p),
    ensures
        counts_alike(xs, ys, p),
{
    assert forall|e: int| 1 <= e <= xs.len() - 1 implies #[trigger] crosses_at(xs, ys, p, e)
        == crosses(p, vertex(xs, ys, e - 1), vertex(xs, ys, e)) by {
        let a = vertex(xs, ys, e);
        let b = vertex(xs, ys, e - 1);
        if (p.y < a.y) != (p.y < b.y) && orient(b, a, p) == 0 {
            assert(edge_orient(xs, ys, e, p) == 0);
            if strictly_outside(xs, ys, p) {
                let f = choose|f: int| 1 <= f <= xs.len() - 1
                    && #[trigger] edge_orient(xs, ys, f, p) < 0;
                lemma_on_edge_is_within(xs, ys, p, e, f);
            }
        }
        lemma_crosses_alike(p, a, b);
    }
}

/// An outline that runs clockwise around a convex region is,
/// read backwards, one that runs counter-clockwise around it; and what is
/// strictly inside or outside the one is so of the other.
proof fn lemma_reversed_turns(xs: Seq<i32>, ys: Seq<i32>, p: Position)
    requires
        convex_clockwise(xs, ys),
    ensures
        convex(reversed(xs), reversed(ys)),
        strictly_inside_clockwise(xs, ys, p) ==> strictly_inside(reversed(xs), reversed(ys), p),
        strictly_outside_clockwise(xs, ys, p) ==> strictly_outside(reversed(xs), reversed(ys), p),
{
    let m = xs.len() - 1;
    let rx = reversed(xs);
    let ry = reversed(ys);
    assert forall|i: int| 0 <= i <= m implies #[trigger] vertex(rx, ry, i) == vertex(xs, ys, m - i) by {}
    assert forall|e: int, q: Position| 1 <= e <= m implies #[trigger] edge_orient(rx, ry, e, q)
        == -edge_orient(xs, ys, m - e + 1, q) by {
        assert(vertex(rx, ry, e - 1) == vertex(xs, ys, m - e + 1));
        assert(vertex(rx, ry, e) == vertex(xs, ys, m - e));
        lemma_orient_swapped(vertex(xs, ys, m - e), vertex(xs, ys, m - e + 1), q);
    }
    assert forall|e: int, j: int|
        1 <= e <= m && 0 <= j < m && j != e - 1 && j != end_of(e, m) implies #[trigger] edge_orient(
        rx,
        ry,
        e,
        vertex(rx, ry, j),
    ) >= 0 && clear_of(rx, ry, e, vertex(rx, ry, j)) by {
        let jo = if j == 0 {
            0
        } else {
            m - j
        };
        assert(vertex(rx, ry, j) == vertex(xs, ys, jo));
        assert(edge_orient(xs, ys, m - e + 1, vertex(xs, ys, jo)) <= 0 && clear_of(
            xs,
            ys,
            m - e + 1,
            vertex(xs, ys, jo),
        ));
        assert(vertex(rx, ry, e - 1) == vertex(xs, ys, m - e + 1));
        assert(vertex(rx, ry, e) == vertex(xs, ys, m - e));
    }
    if strictly_inside_clockwise(xs, ys, p) {
        assert forall|e: int| 1 <= e <= m implies #[trigger] edge_orient(rx, ry, e, p) > 0 by {
            assert(edge_orient(xs, ys, m - e + 1, p) < 0);
        }
    }
    if strictly_outside_clockwise(xs, ys, p) {
        let f = choose|f: int| 1 <= f <= m && #[trigger] edge_orient(xs, ys, f, p) > 0;
        assert(edge_orient(rx, ry, m - f + 1, p) < 0);
    }
}

/// Reading an outline backwards twice gives the outline.
proof fn lemma_reversed_twice(s: Seq<i32>)
    ensures
        reversed(reversed(s)) == s,
{
    assert(reversed(reversed(s)) =~= s);
}

/// **A point strictly inside a convex polygon is in, and a point strictly
/// outside is out, whichever way the outline runs.** For a convex
/// outline that runs clockwise, the even-odd rule says "inside" of a point
/// strictly to the right of all its edges and "outside" of a point strictly
/// to the left of one of them.
pub proof fn lemma_clockwise_convex(xs: Seq<i32>, ys: Seq<i32>, p: Position)
    requires
        convex_clockwise(xs, ys),
    ensures
        strictly_inside_clockwise(xs, ys, p) ==> inside_outline(xs, ys, p),
        strictly_outside_clockwise(xs, ys, p) ==> !inside_outline(xs, ys, p),
{
    let rx = reversed(xs);
    let ry = reversed(ys);
    lemma_reversed_turns(xs, ys, p);
    lemma_reversed_twice(xs);
    lemma_reversed_twice(ys);
    if strictly_inside_clockwise(xs, ys, p) {
        lemma_inside_convex_is_inside(rx, ry, p);
        lemma_counts_alike(rx, ry, p);
        lemma_reversed_outline(rx, ry, p);
    }
    if strictly_outside_clockwise(xs, ys, p) {
        lemma_outside_convex_is_outside(rx, ry, p);
        lemma_counts_alike(rx, ry, p);
        lemma_reversed_outline(rx, ry, p);
    }
}

/// `p` with its two coordinates swapped.
pub open spec fn transposed(p: Position) -> Position {
    Position { x: p.y, y: p.x }
}

/// Swapping the coordinates of three points turns the sign of `orient`.
proof fn lemma_orient_transposed(u: Position, w: Position, q: Position)
    ensures
        orient(transposed(u), transposed(w), transposed(q)) == -orient(u, w, q),
{
    let (ux, uy, wx, wy, qx, qy) = (
        u.x as int,
        u.y as int,
        w.x as int,
        w.y as int,
        q.x as int,
        q.y as int,
    );
    assert((wy - uy) * (qx - ux) - (wx - ux) * (qy - uy) == -((wx - ux) * (qy - uy) - (wy - uy) * (
    qx - ux))) by (nonlinear_arith);
}

/// An outline with the coordinates of its points swapped runs the other
/// way round, and what is strictly inside the one is so of the other.
proof fn lemma_transposed_turns(xs: Seq<i32>, ys: Seq<i32>, p: Position)
    requires
        xs.len() == ys.len(),
    ensures
        convex(xs, ys) ==> convex_clockwise(ys, xs),
        convex_clockwise(xs, ys) ==> convex(ys, xs),
        strictly_inside(xs, ys, p) ==> strictly_inside_clockwise(ys, xs, transposed(p)),
        strictly_inside_clockwise(xs, ys, p) ==> strictly_inside(ys, xs, transposed(p)),
{
    let m = xs.len() - 1;
    assert forall|e: int, q: Position| #[trigger]
        edge_orient(ys, xs, e, transposed(q)) == -edge_orient(xs, ys, e, q) by {
        assert(vertex(ys, xs, e - 1) == transposed(vertex(xs, ys, e - 1)));
        assert(vertex(ys, xs, e) == transposed(vertex(xs, ys, e)));
        lemma_orient_transposed(vertex(xs, ys, e - 1), vertex(xs, ys, e), q);
    }
    assert forall|j: int| #[trigger] vertex(ys, xs, j) == transposed(vertex(xs, ys, j)) by {}
    if convex(xs, ys) {
        assert forall|e: int, j: int|
            1 <= e <= m
                && 0 <= j < m
                && j != e - 1
                && j != end_of(e, m) implies #[trigger] edge_orient(
            ys,
            xs,
            e,
            vertex(ys, xs, j),
        ) <= 0 && clear_of(ys, xs, e, vertex(ys, xs, j)) by {
            assert(edge_orient(xs, ys, e, vertex(xs, ys, j)) >= 0 && clear_of(
                xs,
                ys,
                e,
                vertex(xs, ys, j),
            ));
            assert(edge_orient(ys, xs, e, transposed(vertex(xs, ys, j))) == -edge_orient(
                xs,
                ys,
                e,
                vertex(xs, ys, j),
            ));
            assert(vertex(ys, xs, e - 1) == transposed(vertex(xs, ys, e - 1)));
            assert(vertex(ys, xs, e) == transposed(vertex(xs, ys, e)));
        }
    }
    if convex_clockwise(xs, ys) {
        assert forall|e: int, j: int|
            1 <= e <= m
                && 0 <= j < m
                && j != e - 1
                && j != end_of(e, m) implies #[trigger] edge_orient(
            ys,
            xs,
            e,
            vertex(ys, xs, j),
        ) >= 0 && clear_of(ys, xs, e, vertex(ys, xs, j)) by {
            assert(edge_orient(xs, ys, e, vertex(xs, ys, j)) <= 0 && clear_of(
                xs,
                ys,
                e,
                vertex(xs, ys, j),
            ));
            assert(edge_orient(ys, xs, e, transposed(vertex(xs, ys, j))) == -edge_orient(
                xs,
                ys,
                e,
                vertex(xs, ys, j),
            ));
            assert(vertex(ys, xs, e - 1) == transposed(vertex(xs, ys, e - 1)));
            assert(vertex(ys, xs, e) == transposed(vertex(xs, ys, e)));
        }
    }
    if strictly_inside(xs, ys, p) {
        assert forall|e: int| 1 <= e <= m implies #[trigger] edge_orient(
            ys,
            xs,
            e,
            transposed(p),
        ) < 0 by {
            assert(edge_orient(xs, ys, e, p) > 0);
        }
    }
    if strictly_inside_clockwise(xs, ys, p) {
        assert forall|e: int| 1 <= e <= m implies #[trigger] edge_orient(
            ys,
            xs,
            e,
            transposed(p),
        ) > 0 by {
            assert(edge_orient(xs, ys, e, p) < 0);
        }
    }
}

/// A point strictly inside a convex outline has points of the
/// outline above it and not above it, whichever way the outline runs.
proof fn lemma_inside_between_heights(xs: Seq<i32>, ys: Seq<i32>, p: Position) -> (found: (
    int,
    int,
))
    requires
        (convex(xs, ys) && strictly_inside(xs, ys, p)) || (convex_clockwise(
            xs,
            ys,
        ) && strictly_inside_clockwise(xs, ys, p)),
    ensures
        0 <= found.0 < xs.len(),
        0 <= found.1 < xs.len(),
        p.y < ys[found.0],
        ys[found.1] <= p.y,
{
    if convex(xs, ys) && strictly_inside(xs, ys, p) {
        let high = lemma_inside_is_below_the_top(xs, ys, p);
        let low = lemma_inside_is_above_the_bottom(xs, ys, p);
        (high, low)
    } else {
        let m = xs.len() - 1;
        let rx = reversed(xs);
        let ry = reversed(ys);
        lemma_reversed_turns(xs, ys, p);
        let high = lemma_inside_is_below_the_top(rx, ry, p);
        let low = lemma_inside_is_above_the_bottom(rx, ry, p);
        assert(ry[high] == ys[m - high]);
        assert(ry[low] == ys[m - low]);
        (m - high, m - low)
    }
}

/// **A point strictly inside a convex outline lies in every box that holds
/// the points of the outline.**
pub proof fn lemma_inside_is_in_box(xs: Seq<i32>, ys: Seq<i32>, p: Position, b: crate::geometry::Boundary)
    requires
        (convex(xs, ys) && strictly_inside(xs, ys, p)) || (convex_clockwise(
            xs,
            ys,
        ) && strictly_inside_clockwise(xs, ys, p)),
        forall|j: int| 0 <= j < xs.len() ==> b.contains_spec(#[trigger] vertex(xs, ys, j)),
    ensures
        b.contains_spec(p),
{
    let (high, low) = lemma_inside_between_heights(xs, ys, p);
    assert(b.contains_spec(vertex(xs, ys, high)));
    assert(b.contains_spec(vertex(xs, ys, low)));
    lemma_transposed_turns(xs, ys, p);
    let (right, left) = lemma_inside_between_heights(ys, xs, transposed(p));
    assert(b.contains_spec(vertex(xs, ys, right)));
    assert(b.contains_spec(vertex(xs, ys, left)));
}

/// Whether the bounding box of `suburb` holds every point of its outline.
pub open spec fn is_boxed(suburb: Suburb) -> bool {
    forall|j: int|
        0 <= j < suburb.x_points@.len() ==> suburb.boundary.contains_spec(
            #[trigger] vertex(suburb.x_points@, suburb.y_points@, j),
        )
}

/// What `Suburb::is_inside` returns for a suburb with a convex
/// outline: a point strictly inside the outline is in the suburb, if the
/// bounding box holds the point or holds the outline; a point strictly
/// outside the outline is not, whether the bounding box holds it or not.
pub proof fn lemma_convex_suburb(suburb: Suburb, p: Position)
    requires
        convex(suburb.x_points@, suburb.y_points@) || convex_clockwise(
            suburb.x_points@,
            suburb.y_points@,
        ),
    ensures
        suburb.wf(),
        (suburb.boundary.contains_spec(p) || is_boxed(suburb)) && ((convex(
            suburb.x_points@,
            suburb.y_points@,
        )
            && strictly_inside(suburb.x_points@, suburb.y_points@, p)) || (
        convex_clockwise(suburb.x_points@, suburb.y_points@) && strictly_inside_clockwise(
            suburb.x_points@,
            suburb.y_points@,
            p,
        ))) ==> suburb.inside_spec(p),
        (convex(suburb.x_points@, suburb.y_points@) && strictly_outside(
            suburb.x_points@,
            suburb.y_points@,
            p,
        )) || (convex_clockwise(suburb.x_points@, suburb.y_points@)
            && strictly_outside_clockwise(suburb.x_points@, suburb.y_points@, p))
            ==> !suburb.inside_spec(p),
{
    let xs = suburb.x_points@;
    let ys = suburb.y_points@;
    if is_boxed(suburb) && ((convex(xs, ys) && strictly_inside(xs, ys, p)) || (
    convex_clockwise(xs, ys) && strictly_inside_clockwise(xs, ys, p))) {
        lemma_inside_is_in_box(xs, ys, p, suburb.boundary);
    }
    if convex(xs, ys) {
        if strictly_inside(xs, ys, p) {
            lemma_inside_convex_is_inside(xs, ys, p);
        }
        if strictly_outside(xs, ys, p) {
            lemma_outside_convex_is_outside(xs, ys, p);
        }
    }
    if convex_clockwise(xs, ys) {
        lemma_clockwise_convex(xs, ys, p);
    }
}

} // verus!
