//! From the outline of an island to its triangles.

use crate::decompose::{kept_inside, outline_cut, ring_segments, segments_of, Decomposition};
use crate::geometry::{cross, cross_2d, displacement, dot, dot_2d, lemma_product_bound, Point};
use crate::map::{edges_in_bounds, island_wf, points_in_bounds, position_of, rings, twice_area, Edge, WorldMap, MARGIN_MAX};
use crate::trapezoid::{is_on_the_line, is_right_of, on_the_line, Trapezoid};
use vstd::prelude::*;

verus! {

/// Why a map could not be built.
#[derive(Clone, Copy, Debug, PartialEq, Eq, Structural)]
pub enum BuildError {
    /// An island has no point.
    EmptyRing,
    /// A coordinate or the margin is beyond the bounds.
    OutOfBounds,
}

/// The sides of a trapezoid on which a point lies.
#[derive(Clone, Copy, Debug, PartialEq, Eq, Structural)]
pub struct Touch {
    pub top: bool,
    pub right: bool,
    pub bottom: bool,
    pub left: bool,
}

/// The factor by which a step along an edge is shorter than the edge, where
/// a point just off an end of the edge is needed.
pub const NUDGE: i64 = 1_048_576;

/// The sides of `trapezoid` on which `v` lies.
pub open spec fn touching(trapezoid: Trapezoid, v: Point) -> Touch {
    Touch {
        top: v.y == trapezoid.top && trapezoid.holds(v),
        right: trapezoid.bottom <= v.y <= trapezoid.top && on_the_line(v, trapezoid.right),
        bottom: v.y == trapezoid.bottom && trapezoid.holds(v),
        left: trapezoid.bottom <= v.y <= trapezoid.top && on_the_line(v, trapezoid.left),
    }
}

impl Touch {
    /// On a side at all.
    pub open spec fn any(self) -> bool {
        self.top || self.right || self.bottom || self.left
    }

    /// On a side on which `other` is too.
    pub open spec fn shares(self, other: Touch) -> bool {
        (self.top && other.top) || (self.right && other.right) || (self.bottom && other.bottom)
            || (self.left && other.left)
    }
}

/// Whether the closed segments `a` and `b` cross. Two segments along one
/// line cross where `b` lies within `a`; two segments with a common end and
/// different directions do not cross.
pub open spec fn segments_cross(a: Edge, b: Edge) -> bool {
    let along_a = displacement(a.0, a.1);
    let along_b = displacement(b.0, b.1);
    let between = displacement(a.0, b.0);
    let turn = cross(along_a, along_b);
    if turn == 0 {
        let length = dot(along_a, along_a);
        let first = dot(between, along_a);
        let second = first + dot(along_b, along_a);
        cross(between, along_a) == 0 && length > 0 && 0 <= first <= length && 0 <= second
            <= length
    } else if a.0 == b.0 || a.0 == b.1 || a.1 == b.0 || a.1 == b.1 {
        false
    } else {
        let on_a = cross(between, along_b);
        let on_b = cross(between, along_a);
        if turn > 0 {
            0 <= on_a <= turn && 0 <= on_b <= turn
        } else {
            turn <= on_a <= 0 && turn <= on_b <= 0
        }
    }
}

/// `NUDGE` times the point that lies one `NUDGE`th of the way from `u` to
/// `w`.
pub open spec fn nudged(u: Point, w: Point) -> (int, int) {
    (NUDGE * u.x + (w.x - u.x), NUDGE * u.y + (w.y - u.y))
}

/// Whether the level ray to the right from the point `(px, py) / NUDGE`
/// crosses `segment`. Of a segment with an end on the ray, the end counts
/// when the other end is below.
pub open spec fn fine_crosses(px: int, py: int, segment: Edge) -> bool {
    let start_y = NUDGE * segment.0.y;
    let end_y = NUDGE * segment.1.y;
    let dy = segment.1.y - segment.0.y;
    let dx = segment.1.x - segment.0.x;
    let whole = NUDGE * segment.0.x * dy + (py - start_y) * dx;
    &&& (start_y >= py) != (end_y >= py)
    &&& if dy > 0 {
        px * dy <= whole
    } else {
        px * dy >= whole
    }
}

/// How many of the first `n` of `segments` the level ray to the right from
/// `(px, py) / NUDGE` crosses.
pub open spec fn fine_crossings(px: int, py: int, segments: Seq<Edge>, n: nat) -> nat
    decreases n,
{
    if n == 0 {
        0
    } else {
        fine_crossings(px, py, segments, (n - 1) as nat) + if fine_crosses(
            px,
            py,
            segments[n - 1],
        ) {
            1nat
        } else {
            0nat
        }
    }
}

/// Whether the point just off `u` on the way to `w` lies inside the outline
/// `segments`.
pub open spec fn starts_inside(segments: Seq<Edge>, u: Point, w: Point) -> bool {
    fine_crossings(nudged(u, w).0, nudged(u, w).1, segments, segments.len()) % 2 == 1
}

/// Whether the corners of the triangle number `t` of `island` run
/// counter-clockwise round an area that is not zero.
pub open spec fn counter_clockwise(island: Seq<Point>, t: int) -> bool {
    twice_area(island[3 * t], island[3 * t + 1], island[3 * t + 2]) > 0
}

/// A flat list of triangles, each counter-clockwise with an area that is
/// not zero.
pub open spec fn well_wound(island: Seq<Point>) -> bool {
    &&& island.len() % 3 == 0
    &&& forall|t: int| 0 <= t < island.len() / 3 ==> #[trigger] counter_clockwise(island, t)
}

/// Whether every one of `points` is one of `ring`.
pub open spec fn drawn_from(points: Seq<Point>, ring: Seq<Point>) -> bool {
    forall|k: int| 0 <= k < points.len() ==> ring.contains(#[trigger] points[k])
}

/// The triangle `a b c` with its corners counter-clockwise; nothing where
/// its area is zero.
pub open spec fn wound(a: Point, b: Point, c: Point) -> Seq<Point> {
    if twice_area(a, b, c) > 0 {
        seq![a, b, c]
    } else if twice_area(a, b, c) < 0 {
        seq![c, b, a]
    } else {
        Seq::empty()
    }
}

/// Points drawn from points in bounds are in bounds.
pub proof fn lemma_drawn_in_bounds(points: Seq<Point>, ring: Seq<Point>)
    requires
        drawn_from(points, ring),
        points_in_bounds(ring),
    ensures
        points_in_bounds(points),
{
    assert forall|k: int| 0 <= k < points.len() implies (#[trigger] points[k]).in_bounds() by {
        assert(ring.contains(points[k]));
        let at = choose|at: int| 0 <= at < ring.len() && ring[at] == points[k];
        assert(ring[at].in_bounds());
    }
}

/// Turning a triangle round turns the sign of its area.
pub proof fn lemma_area_reversed(a: Point, b: Point, c: Point)
    requires
        a.in_bounds(),
        b.in_bounds(),
        c.in_bounds(),
    ensures
        twice_area(c, b, a) == -twice_area(a, b, c),
{
    let (ax, ay, bx, by, cx, cy) = (
        a.x as int,
        a.y as int,
        b.x as int,
        b.y as int,
        c.x as int,
        c.y as int,
    );
    assert((bx - cx) * (ay - cy) - (by - cy) * (ax - cx) == -((bx - ax) * (cy - ay) - (by - ay) * (
    cx - ax))) by (nonlinear_arith);
}

impl Edge {
    /// Whether this segment and `other` cross: see [`segments_cross`].
    pub fn intersects(&self, other: &Edge) -> (crossing: bool)
        requires
            self.0.in_bounds(),
            self.1.in_bounds(),
            other.0.in_bounds(),
            other.1.in_bounds(),
        ensures
            crossing == segments_cross(*self, *other),
    {
        let self_direction = self.1.minus(&self.0);
        let other_direction = other.1.minus(&other.0);
        let between = other.0.minus(&self.0);
        let cross_of_directions = cross_2d(self_direction, other_direction);
        if cross_of_directions == 0 {
            if cross_2d(between, self_direction) == 0 {
                let length = dot_2d(self_direction, self_direction);
                let t_0 = dot_2d(between, self_direction);
                let t_1 = t_0 + dot_2d(other_direction, self_direction);
                length > 0 && t_1 <= length && t_1 >= 0 && t_0 >= 0 && t_0 <= length
            } else {
                false
            }
        } else {
            if self.0 == other.0 || self.0 == other.1 || self.1 == other.0 || self.1 == other.1 {
                return false;
            }
            let t = cross_2d(between, other_direction);
            let u = cross_2d(between, self_direction);
            if cross_of_directions > 0 {
                t >= 0 && t <= cross_of_directions && u >= 0 && u <= cross_of_directions
            } else {
                t <= 0 && t >= cross_of_directions && u <= 0 && u >= cross_of_directions
            }
        }
    }
}

/// The test "lies on a side of `trapezoid`".
pub open spec fn touches(trapezoid: Trapezoid) -> spec_fn(Point) -> bool {
    |v: Point| touching(trapezoid, v).any()
}

/// The points of `ring` that lie on a side of `trapezoid`, in their order.
pub open spec fn touchers(trapezoid: Trapezoid, ring: Seq<Point>) -> Seq<Point> {
    ring.filter(touches(trapezoid))
}

/// The way across `trapezoid` between two points of the outline `ring`:
/// where exactly two points of the outline lie on the sides of the
/// trapezoid, and on no common side, the segment between them.
pub open spec fn diagonal_in(trapezoid: Trapezoid, ring: Seq<Point>) -> Option<Edge> {
    let found = touchers(trapezoid, ring);
    if found.len() == 2 && !touching(trapezoid, found[0]).shares(touching(trapezoid, found[1])) {
        Some(Edge(found[0], found[1]))
    } else {
        None
    }
}

/// The ways across the trapezoids `inside`, one for each that has one.
pub open spec fn diagonals_of(inside: Seq<Trapezoid>, ring: Seq<Point>) -> Seq<Edge>
    decreases inside.len(),
{
    if inside.len() == 0 {
        Seq::empty()
    } else {
        let before = diagonals_of(inside.drop_last(), ring);
        match diagonal_in(inside.last(), ring) {
            Some(way) => before.push(way),
            None => before,
        }
    }
}

/// The place in an outline of `count` points that is `step` places after
/// the place `start`, or, backwards, before it, round the outline.
pub open spec fn place(start: int, step: int, count: int, forwards: bool) -> int {
    if forwards {
        if step < count - start {
            start + step
        } else {
            step - (count - start)
        }
    } else {
        if step <= start {
            start - step
        } else {
            count - (step - start)
        }
    }
}

/// The points of `polygon` once round from the place `start`.
pub open spec fn round_from(polygon: Seq<Point>, start: int, forwards: bool) -> Seq<Point> {
    Seq::new(
        polygon.len(),
        |step: int| polygon[place(start, step, polygon.len() as int, forwards)],
    )
}

/// How many of `points` there are up to the first `end` at or after the
/// place `from`, that one included; all of them where there is none.
pub open spec fn reach_of(points: Seq<Point>, end: Point, from: int) -> int
    decreases points.len() - from,
{
    if from < 0 || from >= points.len() {
        points.len() as int
    } else if points[from] == end {
        from + 1
    } else {
        reach_of(points, end, from + 1)
    }
}

/// The points of `polygon` from the place `start` round to the first
/// `end`.
pub open spec fn walked(polygon: Seq<Point>, start: int, end: Point, forwards: bool) -> Seq<Point> {
    let whole = round_from(polygon, start, forwards);
    whole.take(reach_of(whole, end, 0))
}

/// Whether `at` is the first place of `p` among `points`.
pub open spec fn is_first_place(points: Seq<Point>, p: Point, at: int) -> bool {
    &&& 0 <= at < points.len()
    &&& points[at] == p
    &&& forall|j: int| 0 <= j < at ==> points[j] != p
}

/// The first place of `p` among `points`.
pub open spec fn first_place(points: Seq<Point>, p: Point) -> int {
    choose|at: int| is_first_place(points, p, at)
}

/// The two parts into which the way `diagonal` cuts `polygon`: from its
/// first end forwards to its second, and backwards to its second;
/// `polygon` itself where it does not hold both ends.
pub open spec fn split_one(polygon: Seq<Point>, diagonal: Edge) -> Seq<Seq<Point>> {
    if polygon.contains(diagonal.0) && polygon.contains(diagonal.1) {
        let start = first_place(polygon, diagonal.0);
        seq![
            walked(polygon, start, diagonal.1, true),
            walked(polygon, start, diagonal.1, false),
        ]
    } else {
        seq![polygon]
    }
}

/// The first `n` of `polygons`, each cut by `diagonal`.
pub open spec fn split_each(polygons: Seq<Seq<Point>>, diagonal: Edge, n: nat) -> Seq<Seq<Point>>
    decreases n,
{
    if n == 0 {
        Seq::empty()
    } else {
        split_each(polygons, diagonal, (n - 1) as nat) + split_one(polygons[n - 1], diagonal)
    }
}

/// The polygons into which the first `d` of `diagonals` cut the outline
/// `ring`, each way cutting what the ways before it left.
pub open spec fn split_by(ring: Seq<Point>, diagonals: Seq<Edge>, d: nat) -> Seq<Seq<Point>>
    decreases d,
{
    if d == 0 {
        seq![ring]
    } else {
        let before = split_by(ring, diagonals, (d - 1) as nat);
        split_each(before, diagonals[d - 1], before.len())
    }
}

/// The other ends of those of `new_edges` that end in `point`, in their
/// order.
pub open spec fn other_ends(new_edges: Seq<Edge>, point: Point) -> Seq<Point>
    decreases new_edges.len(),
{
    if new_edges.len() == 0 {
        Seq::empty()
    } else {
        let before = other_ends(new_edges.drop_last(), point);
        let edge = new_edges.last();
        if edge.0 == point {
            before.push(edge.1)
        } else if edge.1 == point {
            before.push(edge.0)
        } else {
            before
        }
    }
}

/// The points that the corner number `i` of `polygon` can be joined with:
/// the corner before it, the corner after it, and the other ends of the
/// new edges that end in it.
pub open spec fn neighbours_at(polygon: Seq<Point>, new_edges: Seq<Edge>, i: int) -> Seq<Point> {
    let count = polygon.len() as int;
    let previous = polygon[if i == 0 {
        count - 1
    } else {
        i - 1
    }];
    let next = polygon[if i + 1 == count {
        0
    } else {
        i + 1
    }];
    seq![previous, next] + other_ends(new_edges, polygon[i])
}

/// Whether `a` and `b` have no end in common.
pub open spec fn apart(a: Edge, b: Edge) -> bool {
    a.0 != b.0 && a.1 != b.1 && a.0 != b.1 && a.1 != b.0
}

/// Whether the triangle number `t` of the flat list `triangles` has the
/// corners `a`, `b` and `c`, in any order.
pub open spec fn holds_triangle(triangles: Seq<Point>, t: int, a: Point, b: Point, c: Point) -> bool {
    let p = triangles[3 * t];
    let q = triangles[3 * t + 1];
    let r = triangles[3 * t + 2];
    &&& (p == a || p == b || p == c) && (q == a || q == b || q == c) && (r == a || r == b || r
        == c)
    &&& (a == p || a == q || a == r) && (b == p || b == q || b == r) && (c == p || c == q || c
        == r)
}

/// Whether one of `triangles` has the corners `a`, `b` and `c`.
pub open spec fn known_triangle(triangles: Seq<Point>, a: Point, b: Point, c: Point) -> bool {
    exists|t: int| 0 <= t < triangles.len() / 3 && #[trigger] holds_triangle(triangles, t, a, b, c)
}

/// Whether the triangle `u point w` may be cut off along the new edge from
/// `u` to `w`: it has an area; the edge crosses none of `new_edges`, apart
/// from those it shares an end with, and no side of the outline
/// `segments`; it starts inside the outline at both ends; and the triangle
/// is not among `triangles`.
pub open spec fn ear_ok(
    u: Point,
    point: Point,
    w: Point,
    new_edges: Seq<Edge>,
    segments: Seq<Edge>,
    triangles: Seq<Point>,
) -> bool {
    &&& twice_area(u, point, w) != 0
    &&& forall|k: int|
        0 <= k < new_edges.len() ==> !(apart(Edge(u, w), #[trigger] new_edges[k])
            && segments_cross(Edge(u, w), new_edges[k]))
    &&& forall|k: int| 0 <= k < segments.len() ==> !segments_cross(#[trigger] segments[k], Edge(u, w))
    &&& starts_inside(segments, u, w)
    &&& starts_inside(segments, w, u)
    &&& !known_triangle(triangles, u, point, w)
}

/// The first pair of the neighbour number `i` with a different neighbour,
/// from the number `j` on, that makes a triangle that may be cut off.
pub open spec fn ear_in_row(
    point: Point,
    neighbours: Seq<Point>,
    i: int,
    j: int,
    new_edges: Seq<Edge>,
    segments: Seq<Edge>,
    triangles: Seq<Point>,
) -> Option<(Point, Point)>
    decreases neighbours.len() - j,
{
    if j < 0 || j >= neighbours.len() {
        None
    } else if neighbours[j] != neighbours[i] && ear_ok(
        neighbours[i],
        point,
        neighbours[j],
        new_edges,
        segments,
        triangles,
    ) {
        Some((neighbours[i], neighbours[j]))
    } else {
        ear_in_row(point, neighbours, i, j + 1, new_edges, segments, triangles)
    }
}

/// The first pair of two different neighbours, the first of them from the
/// number `i` on, that makes a triangle that may be cut off.
pub open spec fn first_ear_from(
    point: Point,
    neighbours: Seq<Point>,
    i: int,
    new_edges: Seq<Edge>,
    segments: Seq<Edge>,
    triangles: Seq<Point>,
) -> Option<(Point, Point)>
    decreases neighbours.len() - i,
{
    if i < 0 || i >= neighbours.len() {
        None
    } else {
        match ear_in_row(point, neighbours, i, 0, new_edges, segments, triangles) {
            Some(ear) => Some(ear),
            None => first_ear_from(point, neighbours, i + 1, new_edges, segments, triangles),
        }
    }
}

/// The triangles and the new edges `start`, and after them the triangles
/// cut off at the first `i` corners of `polygon` and the new edges along
/// which they were cut: at each corner in turn the first triangle that may
/// be cut off, if there is one.
pub open spec fn cut_ears(
    polygon: Seq<Point>,
    segments: Seq<Edge>,
    start: (Seq<Point>, Seq<Edge>),
    i: nat,
) -> (Seq<Point>, Seq<Edge>)
    decreases i,
{
    if i == 0 {
        start
    } else {
        let before = cut_ears(polygon, segments, start, (i - 1) as nat);
        let point = polygon[i - 1];
        match first_ear_from(
            point,
            neighbours_at(polygon, before.1, i - 1),
            0,
            before.1,
            segments,
            before.0,
        ) {
            Some(ear) => (
                before.0 + wound(ear.0, point, ear.1),
                before.1.push(Edge(ear.0, ear.1)),
            ),
            None => before,
        }
    }
}

/// The triangles cut off in `rounds` rounds of the corners of `polygon`,
/// and the new edges along which they were cut.
pub open spec fn cut_rounds(polygon: Seq<Point>, segments: Seq<Edge>, rounds: nat) -> (
    Seq<Point>,
    Seq<Edge>,
)
    decreases rounds,
{
    if rounds == 0 {
        (Seq::empty(), Seq::empty())
    } else {
        cut_ears(
            polygon,
            segments,
            cut_rounds(polygon, segments, (rounds - 1) as nat),
            polygon.len(),
        )
    }
}

/// The triangles of `polygon`: itself, counter-clockwise, where it has
/// three corners; else the triangles that are cut off at its corners,
/// round after round until a round cuts none off, in as many rounds at
/// most as it has corners.
pub open spec fn triangles_of_polygon(polygon: Seq<Point>, segments: Seq<Edge>) -> Seq<Point> {
    if polygon.len() == 3 {
        wound(polygon[0], polygon[1], polygon[2])
    } else {
        cut_rounds(polygon, segments, polygon.len()).0
    }
}

/// Once a round cuts nothing off, no later round does.
pub proof fn lemma_rounds_rest(polygon: Seq<Point>, segments: Seq<Edge>, rounds: nat, more: nat)
    requires
        cut_rounds(polygon, segments, rounds + 1) == cut_rounds(polygon, segments, rounds),
    ensures
        cut_rounds(polygon, segments, rounds + more) == cut_rounds(polygon, segments, rounds),
    decreases more,
{
    if more > 0 {
        lemma_rounds_rest(polygon, segments, rounds, (more - 1) as nat);
        assert(cut_rounds(polygon, segments, rounds + more) == cut_ears(
            polygon,
            segments,
            cut_rounds(polygon, segments, (rounds + more - 1) as nat),
            polygon.len(),
        ));
    }
}

/// The triangles of the first `n` of `polygons`.
pub open spec fn triangles_of_all(polygons: Seq<Seq<Point>>, segments: Seq<Edge>, n: nat) -> Seq<
    Point,
>
    decreases n,
{
    if n == 0 {
        Seq::empty()
    } else {
        triangles_of_all(polygons, segments, (n - 1) as nat) + triangles_of_polygon(
            polygons[n - 1],
            segments,
        )
    }
}

/// The triangles of the island with the outline `ring`: the outline cuts
/// the plane into trapezoids; the trapezoids inside it give the ways
/// across; the ways across cut the outline into polygons; and each
/// polygon gives its triangles.
pub open spec fn triangles_of_ring(ring: Seq<Point>) -> Seq<Point> {
    let segments = ring_segments(ring);
    if ring.len() == 3 {
        triangles_of_polygon(ring, segments)
    } else {
        let cut = outline_cut(segments, segments.len());
        let diagonals = diagonals_of(kept_inside(cut.trapezoids, segments), ring);
        let polygons = split_by(ring, diagonals, diagonals.len());
        triangles_of_all(polygons, segments, polygons.len())
    }
}

/// The sides of `trapezoid` on which `v` lies.
pub fn touch_of(trapezoid: &Trapezoid, v: Point) -> (touch: Touch)
    requires
        trapezoid.wf(),
        v.in_bounds(),
    ensures
        touch == touching(*trapezoid, v),
{
    let level = trapezoid.bottom <= v.y && v.y <= trapezoid.top;
    let on_left = is_on_the_line(v, &trapezoid.left);
    let on_right = is_on_the_line(v, &trapezoid.right);
    let holds = level && !is_right_of(v, &trapezoid.right) && (is_right_of(v, &trapezoid.left)
        || on_left);
    Touch {
        top: v.y == trapezoid.top && holds,
        right: level && on_right,
        bottom: v.y == trapezoid.bottom && holds,
        left: level && on_left,
    }
}

/// The way across `trapezoid` between two points of `ring`.
pub fn find_diagonal(trapezoid: &Trapezoid, ring: &Vec<Point>) -> (diagonal: Option<Edge>)
    requires
        trapezoid.wf(),
        points_in_bounds(ring@),
    ensures
        diagonal == diagonal_in(*trapezoid, ring@),
        diagonal matches Some(way) ==> ring@.contains(way.0) && ring@.contains(way.1),
{
    let mut found: usize = 0;
    let mut first: Option<(Point, Touch)> = None;
    let mut second: Option<(Point, Touch)> = None;
    let mut index: usize = 0;
    while index < ring.len()
        invariant
            trapezoid.wf(),
            points_in_bounds(ring@),
            0 <= index <= ring@.len(),
            found <= index,
            found == ring@.take(index as int).filter(touches(*trapezoid)).len(),
            first == if found >= 1 {
                let v = ring@.take(index as int).filter(touches(*trapezoid))[0];
                Some((v, touching(*trapezoid, v)))
            } else {
                None
            },
            second == if found >= 2 {
                let v = ring@.take(index as int).filter(touches(*trapezoid))[1];
                Some((v, touching(*trapezoid, v)))
            } else {
                None
            },
            first matches Some(pair) ==> ring@.contains(pair.0),
            second matches Some(pair) ==> ring@.contains(pair.0),
        decreases ring@.len() - index,
    {
        let v = ring[index];
        let touch = touch_of(trapezoid, v);
        proof {
            assert(ring@.take(index as int + 1) =~= ring@.take(index as int).push(v));
            ring@.take(index as int).lemma_filter_push(v, touches(*trapezoid));
        }
        if touch.top || touch.right || touch.bottom || touch.left {
            if found == 0 {
                first = Some((v, touch));
            } else if found == 1 {
                second = Some((v, touch));
            }
            found += 1;
        }
        index += 1;
    }
    assert(ring@.take(ring@.len() as int) =~= ring@);
    if found != 2 {
        return None;
    }
    match (first, second) {
        (Some((first_point, first_touch)), Some((second_point, second_touch))) => {
            let shared = (first_touch.top && second_touch.top) || (first_touch.right
                && second_touch.right) || (first_touch.bottom && second_touch.bottom) || (
            first_touch.left && second_touch.left);
            if shared {
                None
            } else {
                Some(Edge(first_point, second_point))
            }
        },
        _ => None,
    }
}

/// The ways across the trapezoids `inside`, one for each trapezoid that has
/// one.
pub fn find_diagonals(inside: &Vec<Trapezoid>, ring: &Vec<Point>) -> (diagonals: Vec<Edge>)
    requires
        forall|k: int| 0 <= k < inside@.len() ==> (#[trigger] inside@[k]).wf(),
        points_in_bounds(ring@),
    ensures
        diagonals@ == diagonals_of(inside@, ring@),
        forall|k: int|
            0 <= k < diagonals@.len() ==> ring@.contains((#[trigger] diagonals@[k]).0)
                && ring@.contains(diagonals@[k].1),
{
    let mut diagonals: Vec<Edge> = Vec::new();
    let mut index: usize = 0;
    while index < inside.len()
        invariant
            forall|k: int| 0 <= k < inside@.len() ==> (#[trigger] inside@[k]).wf(),
            points_in_bounds(ring@),
            0 <= index <= inside@.len(),
            diagonals@ == diagonals_of(inside@.take(index as int), ring@),
            forall|k: int|
                0 <= k < diagonals@.len() ==> ring@.contains((#[trigger] diagonals@[k]).0)
                    && ring@.contains(diagonals@[k].1),
        decreases inside@.len() - index,
    {
        proof {
            let next = inside@.take(index as int + 1);
            assert(next.drop_last() =~= inside@.take(index as int));
            assert(next.last() == inside@[index as int]);
        }
        if let Some(diagonal) = find_diagonal(&inside[index], ring) {
            diagonals.push(diagonal);
        }
        index += 1;
    }
    assert(inside@.take(inside@.len() as int) =~= inside@);
    diagonals
}

/// The part of `polygon` from the place `start` on to the first `end`,
/// forwards or backwards round the outline; the whole outline where `end`
/// does not occur.
pub fn walk(polygon: &Vec<Point>, start: usize, end: Point, forwards: bool) -> (part: Vec<Point>)
    requires
        start < polygon@.len(),
    ensures
        part@ == walked(polygon@, start as int, end, forwards),
        drawn_from(part@, polygon@),
{
    let count = polygon.len();
    let ghost whole = round_from(polygon@, start as int, forwards);
    let mut part: Vec<Point> = Vec::new();
    let mut done = false;
    let mut step: usize = 0;
    while step < count && !done
        invariant
            count == polygon@.len(),
            whole == round_from(polygon@, start as int, forwards),
            start < count,
            0 <= step <= count,
            part@ == whole.take(step as int),
            drawn_from(part@, polygon@),
            !done ==> reach_of(whole, end, step as int) == reach_of(whole, end, 0),
            done ==> step == reach_of(whole, end, 0),
        decreases count - step + if done { 0int } else { 1int },
    {
        let place = if forwards {
            if step < count - start {
                start + step
            } else {
                step - (count - start)
            }
        } else {
            if step <= start {
                start - step
            } else {
                count - (step - start)
            }
        };
        let new_vertex = polygon[place];
        let ghost before = part@;
        part.push(new_vertex);
        proof {
            assert(whole[step as int] == new_vertex);
            assert(whole.take(step as int + 1) =~= whole.take(step as int).push(new_vertex));
            assert forall|k: int| 0 <= k < part@.len() implies polygon@.contains(
                #[trigger] part@[k],
            ) by {
                if k < before.len() {
                    assert(part@[k] == before[k]);
                } else {
                    assert(polygon@[place as int] == part@[k]);
                }
            }
        }
        if new_vertex == end {
            done = true;
        }
        step += 1;
    }
    part
}

/// A copy of `polygon`.
fn walk_all(polygon: &Vec<Point>) -> (copy: Vec<Point>)
    ensures
        copy@ == polygon@,
{
    let mut copy: Vec<Point> = Vec::new();
    let mut k: usize = 0;
    while k < polygon.len()
        invariant
            0 <= k <= polygon@.len(),
            copy@ == polygon@.take(k as int),
        decreases polygon@.len() - k,
    {
        copy.push(polygon[k]);
        assert(polygon@.take(k as int + 1) =~= polygon@.take(k as int).push(polygon@[k as int]));
        k += 1;
    }
    assert(polygon@.take(polygon@.len() as int) =~= polygon@);
    copy
}

/// Points drawn from a polygon are drawn from what the polygon is drawn
/// from.
pub proof fn lemma_drawn_twice(points: Seq<Point>, middle: Seq<Point>, ring: Seq<Point>)
    requires
        drawn_from(points, middle),
        drawn_from(middle, ring),
    ensures
        drawn_from(points, ring),
{
    assert forall|k: int| 0 <= k < points.len() implies ring.contains(#[trigger] points[k]) by {
        assert(middle.contains(points[k]));
        let at = choose|at: int| 0 <= at < middle.len() && middle[at] == points[k];
        assert(ring.contains(middle[at]));
    }
}

/// The polygons into which the ways `diagonals` cut the outline `ring`:
/// each way, in turn, cuts every polygon in two that holds both its ends.
pub fn split_by_diagonals(ring: &Vec<Point>, diagonals: &Vec<Edge>) -> (polygons: Vec<Vec<Point>>)
    ensures
        rings(polygons@) == split_by(ring@, diagonals@, diagonals@.len()),
        forall|k: int| 0 <= k < polygons@.len() ==> drawn_from((#[trigger] polygons@[k])@, ring@),
{
    let mut polygons: Vec<Vec<Point>> = Vec::new();
    let whole = walk_all(ring);
    assert(drawn_from(whole@, ring@)) by {
        assert forall|k: int| 0 <= k < whole@.len() implies ring@.contains(#[trigger] whole@[k]) by {
            assert(ring@[k] == whole@[k]);
        }
    }
    polygons.push(whole);
    assert(rings(polygons@) =~= seq![ring@]);
    let mut d: usize = 0;
    while d < diagonals.len()
        invariant
            0 <= d <= diagonals@.len(),
            rings(polygons@) == split_by(ring@, diagonals@, d as nat),
            forall|k: int|
                0 <= k < polygons@.len() ==> drawn_from((#[trigger] polygons@[k])@, ring@),
        decreases diagonals@.len() - d,
    {
        let diagonal = diagonals[d];
        let mut next: Vec<Vec<Point>> = Vec::new();
        assert(rings(next@) =~= Seq::<Seq<Point>>::empty());
        let mut p: usize = 0;
        while p < polygons.len()
            invariant
                0 <= p <= polygons@.len(),
                rings(next@) == split_each(rings(polygons@), diagonal, p as nat),
                forall|k: int|
                    0 <= k < polygons@.len() ==> drawn_from((#[trigger] polygons@[k])@, ring@),
                forall|k: int| 0 <= k < next@.len() ==> drawn_from((#[trigger] next@[k])@, ring@),
            decreases polygons@.len() - p,
        {
            let polygon = &polygons[p];
            let ghost held = next@;
            assert(drawn_from(polygons@[p as int]@, ring@));
            assert(rings(polygons@)[p as int] == polygon@);
            let start = position_of(polygon, diagonal.0);
            let end = position_of(polygon, diagonal.1);
            match (start, end) {
                (Some(diagonal_start_index), Some(diagonal_end_index)) => {
                    let forwards = walk(polygon, diagonal_start_index, diagonal.1, true);
                    let backwards = walk(polygon, diagonal_start_index, diagonal.1, false);
                    proof {
                        lemma_drawn_twice(forwards@, polygon@, ring@);
                        lemma_drawn_twice(backwards@, polygon@, ring@);
                        assert(polygon@[diagonal_start_index as int] == diagonal.0);
                        assert(polygon@[diagonal_end_index as int] == diagonal.1);
                        assert(is_first_place(polygon@, diagonal.0, diagonal_start_index as int));
                        let chosen = first_place(polygon@, diagonal.0);
                        assert(is_first_place(polygon@, diagonal.0, chosen));
                        assert(chosen == diagonal_start_index);
                    }
                    next.push(forwards);
                    next.push(backwards);
                    assert(rings(next@) =~= rings(held) + split_one(polygon@, diagonal));
                },
                _ => {
                    let kept = walk_all(polygon);
                    next.push(kept);
                    assert(rings(next@) =~= rings(held) + split_one(polygon@, diagonal));
                },
            }
            p += 1;
        }
        polygons = next;
        d += 1;
    }
    polygons
}

/// Whether the level ray to the right from `(px, py) / NUDGE` crosses
/// `segment`.
fn is_fine_crossing(px: i64, py: i64, segment: &Edge) -> (crossing: bool)
    requires
        segment.0.in_bounds(),
        segment.1.in_bounds(),
        -600_000_000_000 <= px <= 600_000_000_000,
        -600_000_000_000 <= py <= 600_000_000_000,
    ensures
        crossing == fine_crosses(px as int, py as int, *segment),
{
    let start_y = NUDGE * segment.0.y;
    let end_y = NUDGE * segment.1.y;
    if (start_y >= py) == (end_y >= py) {
        return false;
    }
    let dy = segment.1.y - segment.0.y;
    let dx = segment.1.x - segment.0.x;
    proof {
        lemma_product_bound((NUDGE * segment.0.x) as int, dy as int, 524_288_000_000, 1_000_000);
        lemma_product_bound((py - start_y) as int, dx as int, 1_200_000_000_000, 1_000_000);
        lemma_product_bound(px as int, dy as int, 600_000_000_000, 1_000_000);
        assert(NUDGE * segment.0.x * dy == (NUDGE * segment.0.x) * dy);
    }
    let whole: i128 = ((NUDGE * segment.0.x) as i128) * (dy as i128) + ((py - start_y) as i128) * (
    dx as i128);
    let reach: i128 = (px as i128) * (dy as i128);
    if dy > 0 {
        reach <= whole
    } else {
        reach >= whole
    }
}

/// Whether the point just off `u` on the way to `w` lies inside the outline
/// `segments`.
pub fn is_start_inside(segments: &Vec<Edge>, u: Point, w: Point) -> (inside: bool)
    requires
        edges_in_bounds(segments@),
        u.in_bounds(),
        w.in_bounds(),
    ensures
        inside == starts_inside(segments@, u, w),
{
    let px = NUDGE * u.x + (w.x - u.x);
    let py = NUDGE * u.y + (w.y - u.y);
    let mut odd = false;
    let mut k: usize = 0;
    while k < segments.len()
        invariant
            edges_in_bounds(segments@),
            -600_000_000_000 <= px <= 600_000_000_000,
            -600_000_000_000 <= py <= 600_000_000_000,
            0 <= k <= segments@.len(),
            odd == (fine_crossings(px as int, py as int, segments@, k as nat) % 2 == 1),
        decreases segments@.len() - k,
    {
        if is_fine_crossing(px, py, &segments[k]) {
            odd = !odd;
        }
        k += 1;
    }
    odd
}

/// Whether one of the triangles in the flat list `triangles` has the
/// corners `a`, `b` and `c`, in any order.
fn has_triangle(triangles: &Vec<Point>, a: Point, b: Point, c: Point) -> (found: bool)
    requires
        triangles@.len() % 3 == 0,
    ensures
        found == known_triangle(triangles@, a, b, c),
{
    let count = triangles.len() / 3;
    let mut t: usize = 0;
    while t < count
        invariant
            3 * count == triangles@.len() <= usize::MAX,
            0 <= t <= count,
            forall|s: int| 0 <= s < t ==> !#[trigger] holds_triangle(triangles@, s, a, b, c),
        decreases count - t,
    {
        let p = triangles[3 * t];
        let q = triangles[3 * t + 1];
        let r = triangles[3 * t + 2];
        let all_known = (p == a || p == b || p == c) && (q == a || q == b || q == c) && (r == a
            || r == b || r == c);
        let all_used = (a == p || a == q || a == r) && (b == p || b == q || b == r) && (c == p
            || c == q || c == r);
        if all_known && all_used {
            assert(holds_triangle(triangles@, t as int, a, b, c));
            return true;
        }
        t += 1;
    }
    false
}

/// Whether the triangle `u point w` may be cut off along the new edge from
/// `u` to `w`.
fn is_ear(
    u: Point,
    point: Point,
    w: Point,
    new_edges: &Vec<Edge>,
    segments: &Vec<Edge>,
    triangles: &Vec<Point>,
) -> (ear: bool)
    requires
        u.in_bounds(),
        point.in_bounds(),
        w.in_bounds(),
        edges_in_bounds(new_edges@),
        edges_in_bounds(segments@),
        triangles@.len() % 3 == 0,
    ensures
        ear == ear_ok(u, point, w, new_edges@, segments@, triangles@),
{
    let new_edge = Edge(u, w);
    let area = cross_2d(point.minus(&u), w.minus(&u));
    if area == 0 {
        return false;
    }
    let mut k: usize = 0;
    while k < new_edges.len()
        invariant
            u.in_bounds(),
            w.in_bounds(),
            new_edge == Edge(u, w),
            edges_in_bounds(new_edges@),
            0 <= k <= new_edges@.len(),
            forall|j: int|
                0 <= j < k ==> !(apart(new_edge, #[trigger] new_edges@[j]) && segments_cross(
                    new_edge,
                    new_edges@[j],
                )),
        decreases new_edges@.len() - k,
    {
        let other_edge = new_edges[k];
        let is_apart = (new_edge.0 != other_edge.0 && new_edge.1 != other_edge.1) && (new_edge.0
            != other_edge.1 && new_edge.1 != other_edge.0);
        if is_apart && new_edge.intersects(&other_edge) {
            return false;
        }
        k += 1;
    }
    let mut s: usize = 0;
    while s < segments.len()
        invariant
            u.in_bounds(),
            w.in_bounds(),
            new_edge == Edge(u, w),
            edges_in_bounds(segments@),
            0 <= s <= segments@.len(),
            forall|j: int| 0 <= j < s ==> !segments_cross(#[trigger] segments@[j], new_edge),
        decreases segments@.len() - s,
    {
        let segment = segments[s];
        if segment.intersects(&new_edge) {
            return false;
        }
        s += 1;
    }
    if !is_start_inside(segments, u, w) || !is_start_inside(segments, w, u) {
        return false;
    }
    !has_triangle(triangles, u, point, w)
}

/// The first pair of `neighbours` that, with `point`, makes a triangle
/// that may be cut off.
fn first_ear(
    point: Point,
    neighbours: &Vec<Point>,
    new_edges: &Vec<Edge>,
    segments: &Vec<Edge>,
    triangles: &Vec<Point>,
) -> (ear: Option<(Point, Point)>)
    requires
        point.in_bounds(),
        points_in_bounds(neighbours@),
        edges_in_bounds(new_edges@),
        edges_in_bounds(segments@),
        triangles@.len() % 3 == 0,
    ensures
        ear == first_ear_from(point, neighbours@, 0, new_edges@, segments@, triangles@),
        ear matches Some(pair) ==> neighbours@.contains(pair.0) && neighbours@.contains(pair.1)
            && twice_area(pair.0, point, pair.1) != 0,
{
    let mut i: usize = 0;
    while i < neighbours.len()
        invariant
            point.in_bounds(),
            points_in_bounds(neighbours@),
            edges_in_bounds(new_edges@),
            edges_in_bounds(segments@),
            triangles@.len() % 3 == 0,
            0 <= i <= neighbours@.len(),
            first_ear_from(point, neighbours@, i as int, new_edges@, segments@, triangles@)
                == first_ear_from(point, neighbours@, 0, new_edges@, segments@, triangles@),
        decreases neighbours@.len() - i,
    {
        let u = neighbours[i];
        let mut j: usize = 0;
        while j < neighbours.len()
            invariant
                point.in_bounds(),
                points_in_bounds(neighbours@),
                edges_in_bounds(new_edges@),
                edges_in_bounds(segments@),
                triangles@.len() % 3 == 0,
                0 <= i < neighbours@.len(),
                u == neighbours@[i as int],
                0 <= j <= neighbours@.len(),
                first_ear_from(point, neighbours@, i as int, new_edges@, segments@, triangles@)
                    == first_ear_from(point, neighbours@, 0, new_edges@, segments@, triangles@),
                ear_in_row(
                    point,
                    neighbours@,
                    i as int,
                    j as int,
                    new_edges@,
                    segments@,
                    triangles@,
                ) == ear_in_row(point, neighbours@, i as int, 0, new_edges@, segments@, triangles@),
            decreases neighbours@.len() - j,
        {
            let w = neighbours[j];
            if w != u && is_ear(u, point, w, new_edges, segments, triangles) {
                proof {
                    assert(ear_in_row(
                        point,
                        neighbours@,
                        i as int,
                        j as int,
                        new_edges@,
                        segments@,
                        triangles@,
                    ) == Some((u, w)));
                    assert(first_ear_from(
                        point,
                        neighbours@,
                        i as int,
                        new_edges@,
                        segments@,
                        triangles@,
                    ) == Some((u, w)));
                }
                return Some((u, w));
            }
            j += 1;
        }
        i += 1;
    }
    None
}

/// Adds the triangle `a b c` to the flat list `triangles`, its corners
/// counter-clockwise.
fn push_wound(triangles: &mut Vec<Point>, a: Point, b: Point, c: Point)
    requires
        a.in_bounds(),
        b.in_bounds(),
        c.in_bounds(),
    ensures
        final(triangles)@ == old(triangles)@ + wound(a, b, c),
{
    let area = cross_2d(b.minus(&a), c.minus(&a));
    let ghost before = triangles@;
    if area > 0 {
        triangles.push(a);
        triangles.push(b);
        triangles.push(c);
        assert(triangles@ =~= before + seq![a, b, c]);
    } else if area < 0 {
        triangles.push(c);
        triangles.push(b);
        triangles.push(a);
        assert(triangles@ =~= before + seq![c, b, a]);
    } else {
        assert(triangles@ =~= before + Seq::<Point>::empty());
    }
}

/// A well wound list stays well wound when a wound triangle is added.
pub proof fn lemma_wound_keeps(island: Seq<Point>, a: Point, b: Point, c: Point)
    requires
        well_wound(island),
        a.in_bounds(),
        b.in_bounds(),
        c.in_bounds(),
    ensures
        well_wound(island + wound(a, b, c)),
{
    let after = island + wound(a, b, c);
    lemma_area_reversed(a, b, c);
    assert forall|t: int| 0 <= t < after.len() / 3 implies #[trigger] counter_clockwise(
        after,
        t,
    ) by {
        if t < island.len() / 3 {
            assert(counter_clockwise(island, t));
            assert(after[3 * t] == island[3 * t]);
            assert(after[3 * t + 1] == island[3 * t + 1]);
            assert(after[3 * t + 2] == island[3 * t + 2]);
        } else {
            assert(3 * t == island.len());
            assert(after[3 * t] == wound(a, b, c)[0]);
            assert(after[3 * t + 1] == wound(a, b, c)[1]);
            assert(after[3 * t + 2] == wound(a, b, c)[2]);
        }
    }
}

/// The triangles of `polygon`: itself where it has three corners, else the
/// triangles that can be cut off at its corners, round after round.
pub fn triangulate_polygon(polygon: &Vec<Point>, segments: &Vec<Edge>) -> (triangles: Vec<Point>)
    requires
        points_in_bounds(polygon@),
        edges_in_bounds(segments@),
    ensures
        triangles@ == triangles_of_polygon(polygon@, segments@),
        well_wound(triangles@),
        drawn_from(triangles@, polygon@),
{
    let count = polygon.len();
    let mut triangles: Vec<Point> = Vec::new();
    if count == 0 {
        return triangles;
    }
    if count == 3 {
        push_wound(&mut triangles, polygon[0], polygon[1], polygon[2]);
        proof {
            lemma_wound_keeps(Seq::empty(), polygon@[0], polygon@[1], polygon@[2]);
            assert(Seq::<Point>::empty() + wound(polygon@[0], polygon@[1], polygon@[2]) =~= wound(
                polygon@[0],
                polygon@[1],
                polygon@[2],
            ));
            assert forall|k: int| 0 <= k < triangles@.len() implies polygon@.contains(
                #[trigger] triangles@[k],
            ) by {
                assert(triangles@[k] == polygon@[0] || triangles@[k] == polygon@[1]
                    || triangles@[k] == polygon@[2]);
            }
        }
        return triangles;
    }
    let mut new_edges: Vec<Edge> = Vec::new();
    let mut round: usize = 0;
    let mut added = true;
    while round < count && added
        invariant
            count == polygon@.len(),
            count > 0,
            points_in_bounds(polygon@),
            edges_in_bounds(segments@),
            0 <= round <= count,
            (triangles@, new_edges@) == cut_rounds(polygon@, segments@, round as nat),
            !added ==> round >= 1 && cut_rounds(polygon@, segments@, round as nat) == cut_rounds(
                polygon@,
                segments@,
                (round - 1) as nat,
            ),
            well_wound(triangles@),
            drawn_from(triangles@, polygon@),
            edges_in_bounds(new_edges@),
            forall|k: int|
                0 <= k < new_edges@.len() ==> polygon@.contains((#[trigger] new_edges@[k]).0)
                    && polygon@.contains(new_edges@[k].1),
        decreases count - round,
    {
        let ghost start = (triangles@, new_edges@);
        let triangles_before = triangles.len();
        let mut i: usize = 0;
        while i < count
            invariant
                count == polygon@.len(),
                count > 0,
                points_in_bounds(polygon@),
                edges_in_bounds(segments@),
                0 <= i <= count,
                (triangles@, new_edges@) == cut_ears(polygon@, segments@, start, i as nat),
                triangles_before == start.0.len(),
                triangles@.len() >= start.0.len(),
                triangles@.len() == start.0.len() ==> (triangles@, new_edges@) == start,
                well_wound(triangles@),
                drawn_from(triangles@, polygon@),
                edges_in_bounds(new_edges@),
                forall|k: int|
                    0 <= k < new_edges@.len() ==> polygon@.contains((#[trigger] new_edges@[k]).0)
                        && polygon@.contains(new_edges@[k].1),
            decreases count - i,
        {
            let point = polygon[i];
            let prev_neighbour = if i == 0 {
                polygon[count - 1]
            } else {
                polygon[i - 1]
            };
            let next_neighbour = if i + 1 == count {
                polygon[0]
            } else {
                polygon[i + 1]
            };
            let mut neighbours: Vec<Point> = Vec::new();
            neighbours.push(prev_neighbour);
            neighbours.push(next_neighbour);
            assert(neighbours@ =~= seq![prev_neighbour, next_neighbour] + Seq::<Point>::empty());
            assert(drawn_from(neighbours@, polygon@)) by {
                assert forall|k: int| 0 <= k < neighbours@.len() implies polygon@.contains(
                    #[trigger] neighbours@[k],
                ) by {
                    if k == 0 {
                        if i == 0 {
                            assert(polygon@[count - 1] == neighbours@[k]);
                        } else {
                            assert(polygon@[i - 1] == neighbours@[k]);
                        }
                    } else {
                        if i + 1 == count {
                            assert(polygon@[0] == neighbours@[k]);
                        } else {
                            assert(polygon@[i + 1] == neighbours@[k]);
                        }
                    }
                }
            }
            let mut e: usize = 0;
            while e < new_edges.len()
                invariant
                    0 <= e <= new_edges@.len(),
                    drawn_from(neighbours@, polygon@),
                    neighbours@ == seq![prev_neighbour, next_neighbour] + other_ends(
                        new_edges@.take(e as int),
                        point,
                    ),
                    forall|k: int|
                        0 <= k < new_edges@.len() ==> polygon@.contains(
                            (#[trigger] new_edges@[k]).0,
                        ) && polygon@.contains(new_edges@[k].1),
                decreases new_edges@.len() - e,
            {
                let edge = new_edges[e];
                let ghost before = neighbours@;
                proof {
                    assert(polygon@.contains(new_edges@[e as int].0));
                    let next = new_edges@.take(e as int + 1);
                    assert(next.drop_last() =~= new_edges@.take(e as int));
                    assert(next.last() == edge);
                }
                if edge.0 == point {
                    neighbours.push(edge.1);
                    assert forall|k: int| 0 <= k < neighbours@.len() implies polygon@.contains(
                        #[trigger] neighbours@[k],
                    ) by {
                        if k < before.len() {
                            assert(neighbours@[k] == before[k]);
                        }
                    }
                    assert(neighbours@ =~= seq![prev_neighbour, next_neighbour] + other_ends(
                        new_edges@.take(e as int + 1),
                        point,
                    ));
                } else if edge.1 == point {
                    neighbours.push(edge.0);
                    assert forall|k: int| 0 <= k < neighbours@.len() implies polygon@.contains(
                        #[trigger] neighbours@[k],
                    ) by {
                        if k < before.len() {
                            assert(neighbours@[k] == before[k]);
                        }
                    }
                    assert(neighbours@ =~= seq![prev_neighbour, next_neighbour] + other_ends(
                        new_edges@.take(e as int + 1),
                        point,
                    ));
                }
                e += 1;
            }
            proof {
                assert(new_edges@.take(new_edges@.len() as int) =~= new_edges@);
                assert(neighbours@ == neighbours_at(polygon@, new_edges@, i as int));
                lemma_drawn_in_bounds(neighbours@, polygon@);
            }
            if let Some((u, w)) = first_ear(point, &neighbours, &new_edges, segments, &triangles) {
                let ghost before = triangles@;
                proof {
                    let at_u = choose|at: int| 0 <= at < neighbours@.len() && neighbours@[at] == u;
                    let at_w = choose|at: int| 0 <= at < neighbours@.len() && neighbours@[at] == w;
                    assert(polygon@.contains(neighbours@[at_u]));
                    assert(polygon@.contains(neighbours@[at_w]));
                    assert(polygon@[i as int] == point);
                }
                push_wound(&mut triangles, u, point, w);
                new_edges.push(Edge(u, w));
                proof {
                    lemma_wound_keeps(before, u, point, w);
                    assert(wound(u, point, w).len() == 3);
                    assert forall|k: int| 0 <= k < triangles@.len() implies polygon@.contains(
                        #[trigger] triangles@[k],
                    ) by {
                        if k < before.len() {
                            assert(triangles@[k] == before[k]);
                        } else {
                            let added_triangle = wound(u, point, w);
                            assert(triangles@[k] == added_triangle[k - before.len()]);
                            assert(triangles@[k] == u || triangles@[k] == point || triangles@[k]
                                == w);
                        }
                    }
                }
            }
            i += 1;
        }
        added = triangles.len() > triangles_before;
        round += 1;
    }
    proof {
        if !added {
            lemma_rounds_rest(polygon@, segments@, (round - 1) as nat, (count - round + 1) as nat);
        }
    }
    triangles
}

/// The triangles of the island with the outline `ring`.
pub fn triangulate_ring(ring: &Vec<Point>) -> (triangles: Vec<Point>)
    requires
        points_in_bounds(ring@),
    ensures
        triangles@ == triangles_of_ring(ring@),
        well_wound(triangles@),
        drawn_from(triangles@, ring@),
{
    let segments = segments_of(ring);
    if ring.len() == 3 {
        return triangulate_polygon(ring, &segments);
    }
    let decomposition = Decomposition::of_outline(&segments);
    let trapezoids_in_polygon = decomposition.inside(&segments);
    let new_diagonals = find_diagonals(&trapezoids_in_polygon, ring);
    let monotone_polygons = split_by_diagonals(ring, &new_diagonals);
    let mut triangles: Vec<Point> = Vec::new();
    let mut p: usize = 0;
    while p < monotone_polygons.len()
        invariant
            points_in_bounds(ring@),
            edges_in_bounds(segments@),
            forall|k: int|
                0 <= k < monotone_polygons@.len() ==> drawn_from(
                    (#[trigger] monotone_polygons@[k])@,
                    ring@,
                ),
            0 <= p <= monotone_polygons@.len(),
            triangles@ == triangles_of_all(rings(monotone_polygons@), segments@, p as nat),
            well_wound(triangles@),
            drawn_from(triangles@, ring@),
        decreases monotone_polygons@.len() - p,
    {
        let polygon = &monotone_polygons[p];
        proof {
            assert(drawn_from(monotone_polygons@[p as int]@, ring@));
            assert(rings(monotone_polygons@)[p as int] == polygon@);
            lemma_drawn_in_bounds(polygon@, ring@);
        }
        let mut part = triangulate_polygon(polygon, &segments);
        proof {
            lemma_drawn_twice(part@, polygon@, ring@);
            lemma_wound_joined(triangles@, part@);
            assert forall|k: int| 0 <= k < (triangles@ + part@).len() implies ring@.contains(
                #[trigger] (triangles@ + part@)[k],
            ) by {
                if k < triangles@.len() {
                    assert((triangles@ + part@)[k] == triangles@[k]);
                } else {
                    assert((triangles@ + part@)[k] == part@[k - triangles@.len()]);
                }
            }
        }
        triangles.append(&mut part);
        p += 1;
    }
    triangles
}

/// Two well wound lists, one after the other, are well wound.
pub proof fn lemma_wound_joined(first: Seq<Point>, second: Seq<Point>)
    requires
        well_wound(first),
        well_wound(second),
    ensures
        well_wound(first + second),
{
    let joined = first + second;
    assert forall|t: int| 0 <= t < joined.len() / 3 implies #[trigger] counter_clockwise(
        joined,
        t,
    ) by {
        if t < first.len() / 3 {
            assert(counter_clockwise(first, t));
            assert(joined[3 * t] == first[3 * t]);
            assert(joined[3 * t + 1] == first[3 * t + 1]);
            assert(joined[3 * t + 2] == first[3 * t + 2]);
        } else {
            let s = t - first.len() / 3;
            assert(counter_clockwise(second, s));
            assert(joined[3 * t] == second[3 * s]);
            assert(joined[3 * t + 1] == second[3 * s + 1]);
            assert(joined[3 * t + 2] == second[3 * s + 2]);
        }
    }
}

/// Whether one of `islands` has no point.
pub open spec fn has_empty_ring(islands: Seq<Vec<Point>>) -> bool {
    exists|i: int| 0 <= i < islands.len() && (#[trigger] islands[i])@.len() == 0
}

/// Whether the margin and every point of `islands` are in bounds.
pub open spec fn all_in_bounds(islands: Seq<Vec<Point>>, margin: i64) -> bool {
    &&& 0 <= margin <= MARGIN_MAX
    &&& forall|i: int| 0 <= i < islands.len() ==> points_in_bounds((#[trigger] islands[i])@)
}

impl WorldMap {
    /// Builds the map of the islands whose outlines are `islands`, each a
    /// ring of points; `margin` is the distance by which routes are kept
    /// off the coast.
    ///
    /// Fails with `EmptyRing` where an outline has no point, else with
    /// `OutOfBounds` where the margin or a coordinate is out of bounds.
    /// Else the map has for each outline, in their order, the triangles
    /// that [`triangles_of_ring`] names. Every triangle has its corners
    /// among the points of the outline, counter-clockwise, and an area
    /// that is not zero.
    pub fn new(islands: Vec<Vec<Point>>, margin: i64) -> (built: Result<WorldMap, BuildError>)
        ensures
            has_empty_ring(islands@) ==> built == Err::<WorldMap, BuildError>(
                BuildError::EmptyRing,
            ),
            !has_empty_ring(islands@) && !all_in_bounds(islands@, margin) ==> built == Err::<
                WorldMap,
                BuildError,
            >(BuildError::OutOfBounds),
            !has_empty_ring(islands@) && all_in_bounds(islands@, margin) ==> built is Ok,
            built matches Ok(map) ==> {
                &&& map.wf()
                &&& map.margin == margin
                &&& map.islands@.len() == islands@.len()
                &&& forall|i: int|
                    0 <= i < islands@.len() ==> (#[trigger] map.islands@[i])@ == triangles_of_ring(
                        islands@[i]@,
                    )
                &&& forall|i: int|
                    0 <= i < islands@.len() ==> well_wound((#[trigger] map.islands@[i])@)
                        && drawn_from(map.islands@[i]@, islands@[i]@)
            },
    {
        let mut check: usize = 0;
        while check < islands.len()
            invariant
                0 <= check <= islands@.len(),
                forall|i: int| 0 <= i < check ==> (#[trigger] islands@[i])@.len() != 0,
            decreases islands@.len() - check,
        {
            if islands[check].len() == 0 {
                return Err(BuildError::EmptyRing);
            }
            check += 1;
        }
        if margin < 0 || margin > MARGIN_MAX {
            return Err(BuildError::OutOfBounds);
        }
        let mut islands_triangulated: Vec<Vec<Point>> = Vec::new();
        let mut index: usize = 0;
        while index < islands.len()
            invariant
                0 <= margin <= MARGIN_MAX,
                !has_empty_ring(islands@),
                0 <= index <= islands@.len(),
                islands_triangulated@.len() == index,
                forall|i: int| 0 <= i < index ==> points_in_bounds((#[trigger] islands@[i])@),
                forall|i: int|
                    0 <= i < index ==> island_wf((#[trigger] islands_triangulated@[i])@)
                        && well_wound(islands_triangulated@[i]@) && drawn_from(
                        islands_triangulated@[i]@,
                        islands@[i]@,
                    ),
                forall|i: int|
                    0 <= i < index ==> (#[trigger] islands_triangulated@[i])@ == triangles_of_ring(
                        islands@[i]@,
                    ),
            decreases islands@.len() - index,
        {
            let island = &islands[index];
            let mut k: usize = 0;
            while k < island.len()
                invariant
                    0 <= index < islands@.len(),
                    *island == islands@[index as int],
                    !has_empty_ring(islands@),
                    0 <= k <= island@.len(),
                    forall|j: int| 0 <= j < k ==> (#[trigger] island@[j]).in_bounds(),
                decreases island@.len() - k,
            {
                if !island[k].is_in_bounds() {
                    assert(!points_in_bounds(islands@[index as int]@));
                    return Err(BuildError::OutOfBounds);
                }
                k += 1;
            }
            let triangles = triangulate_ring(island);
            proof {
                lemma_drawn_in_bounds(triangles@, island@);
            }
            islands_triangulated.push(triangles);
            index += 1;
        }
        Ok(WorldMap { islands: islands_triangulated, margin })
    }
}

} // verus!
