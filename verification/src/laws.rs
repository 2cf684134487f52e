//! What holds of the map and of its coast, whatever the islands.

use crate::approach::{approach, nearest_approach, normal, reversed};
use crate::geometry::{cross, displacement, dot, round_div, translate, Point};
use crate::map::{coastline, edges_in_bounds, in_sight, island_boundary, island_edges, island_wf, occurs_once, rings, Edge, WorldMap};
use crate::sight::cast;
use crate::triangulate::{cut_ears, triangles_of_ring, wound};
use crate::map::twice_area;
use vstd::prelude::*;

verus! {

/// Whether `p` lies strictly to the left of the way from `from` to `to`.
pub open spec fn left_of(p: Point, from: Point, to: Point) -> bool {
    cross(displacement(from, to), displacement(from, p)) > 0
}

/// Whether `p` lies strictly to the right of the way from `from` to `to`.
pub open spec fn right_of_way(p: Point, from: Point, to: Point) -> bool {
    cross(displacement(from, to), displacement(from, p)) < 0
}

/// Whether `a` and `b` lie strictly on different sides of the line through
/// `from` and `to`.
pub open spec fn parted_by(a: Point, b: Point, from: Point, to: Point) -> bool {
    (left_of(a, from, to) && right_of_way(b, from, to)) || (right_of_way(a, from, to) && left_of(
        b,
        from,
        to,
    ))
}

/// Whether the way from `from` to `to` and `edge` cross in a point that is
/// an end of neither: the ends of each lie strictly on different sides of
/// the other.
pub open spec fn crosses_properly(from: Point, to: Point, edge: Edge) -> bool {
    parted_by(edge.0, edge.1, from, to) && parted_by(from, to, edge.0, edge.1)
}

/// A way that crosses a piece of coast properly meets it: such a way is
/// not in sight.
pub proof fn lemma_crossing_blocks_sight(from: Point, to: Point, edge: Edge)
    requires
        from.in_bounds(),
        to.in_bounds(),
        edge.0.in_bounds(),
        edge.1.in_bounds(),
        crosses_properly(from, to, edge),
    ensures
        cast(edge, from, displacement(from, to), true) is Some,
{
    let direction = displacement(from, to);
    let along = displacement(edge.0, edge.1);
    let to_edge = displacement(from, edge.0);
    let to_end = displacement(from, edge.1);
    let back = displacement(edge.0, from);
    let across = displacement(edge.0, to);
    let (dx, dy) = (direction.x as int, direction.y as int);
    let (ax, ay) = (along.x as int, along.y as int);
    let (ex, ey) = (to_edge.x as int, to_edge.y as int);
    assert(to_end.x == ex + ax && to_end.y == ey + ay);
    assert(back.x == -ex && back.y == -ey);
    assert(across.x == dx - ex && across.y == dy - ey);
    let turn = cross(direction, along);
    // The sides of the ends of the edge, seen from the way.
    assert(cross(direction, to_end) == cross(direction, to_edge) + turn) by (nonlinear_arith)
        requires
            to_end.x == ex + ax,
            to_end.y == ey + ay,
            to_edge.x == ex,
            to_edge.y == ey,
            direction.x == dx,
            direction.y == dy,
            along.x == ax,
            along.y == ay,
            turn == dx * ay - dy * ax,
    ;
    assert(cross(direction, to_edge) == -cross(to_edge, direction)) by (nonlinear_arith)
        requires
            to_edge.x == ex,
            to_edge.y == ey,
            direction.x == dx,
            direction.y == dy,
    ;
    // The sides of the ends of the way, seen from the edge.
    assert(cross(along, back) == cross(to_edge, along)) by (nonlinear_arith)
        requires
            back.x == -ex,
            back.y == -ey,
            to_edge.x == ex,
            to_edge.y == ey,
            along.x == ax,
            along.y == ay,
    ;
    assert(cross(along, across) == cross(to_edge, along) - turn) by (nonlinear_arith)
        requires
            across.x == dx - ex,
            across.y == dy - ey,
            to_edge.x == ex,
            to_edge.y == ey,
            along.x == ax,
            along.y == ay,
            turn == dx * ay - dy * ax,
    ;
}

/// A way in sight crosses no piece of the coast properly.
pub proof fn lemma_sight_crosses_nothing(coast: Seq<Edge>, from: Point, to: Point, k: int)
    requires
        edges_in_bounds(coast),
        from.in_bounds(),
        to.in_bounds(),
        in_sight(coast, from, to),
        0 <= k < coast.len(),
    ensures
        !crosses_properly(from, to, coast[k]),
{
    if crosses_properly(from, to, coast[k]) {
        lemma_crossing_blocks_sight(from, to, coast[k]);
        assert(cast(coast[k], from, displacement(from, to), true) is None);
    }
}

/// Whether `foot` is the point of the lattice nearest to a point of
/// `edge`: the point of `edge` that lies `reach / length` of the way along
/// it, for a `reach` between 0 and the squared length `length` of `edge`.
pub open spec fn on_edge_rounded(foot: Point, edge: Edge) -> bool {
    let along = displacement(edge.0, edge.1);
    let length = dot(along, along);
    exists|reach: int|
        0 <= reach <= length && foot.x == #[trigger] round_div(
            edge.0.x * length + reach * along.x,
            length,
        ) && foot.y == round_div(edge.0.y * length + reach * along.y, length)
}

/// A whole number of times the divisor, divided and rounded, is that
/// number.
pub proof fn lemma_round_div_exact(n: int, d: int)
    requires
        d > 0,
    ensures
        round_div(n * d, d) == n,
{
    assert(2 * (n * d) + d == n * (2 * d) + d) by (nonlinear_arith);
    vstd::arithmetic::div_mod::lemma_fundamental_div_mod_converse(2 * (n * d) + d, 2 * d, n, d);
}

/// The point of an edge nearest to a position lies on the edge, but for
/// the rounding to the lattice.
pub proof fn lemma_foot_on_edge(edge: Edge, p: Point)
    requires
        edge.0.in_bounds(),
        edge.1.in_bounds(),
        p.in_bounds(),
    ensures
        approach(edge, p) matches Some(near) ==> on_edge_rounded(near.foot, edge),
{
    let along = displacement(edge.0, edge.1);
    let length = dot(along, along);
    let to_point = displacement(edge.0, p);
    let reach = dot(to_point, along);
    assert(along.x * along.x >= 0 && along.y * along.y >= 0) by (nonlinear_arith);
    if length != 0 {
        if reach <= 0 {
            lemma_round_div_exact(edge.0.x as int, length);
            lemma_round_div_exact(edge.0.y as int, length);
            assert(0 * along.x == 0 && 0 * along.y == 0);
            assert(edge.0.x == round_div(edge.0.x * length + 0 * along.x, length));
            assert(edge.0.y == round_div(edge.0.y * length + 0 * along.y, length));
        } else if reach >= length {
            lemma_round_div_exact(edge.1.x as int, length);
            lemma_round_div_exact(edge.1.y as int, length);
            assert(edge.0.x * length + length * along.x == edge.1.x * length) by (nonlinear_arith)
                requires
                    along.x == edge.1.x - edge.0.x,
            ;
            assert(edge.0.y * length + length * along.y == edge.1.y * length) by (nonlinear_arith)
                requires
                    along.y == edge.1.y - edge.0.y,
            ;
            assert(edge.1.x == round_div(edge.0.x * length + length * along.x, length));
            assert(edge.1.y == round_div(edge.0.y * length + length * along.y, length));
        } else {
            let near = approach(edge, p)->0;
            crate::sight::lemma_point_on_edge(edge.0.x as int, along.x as int, length, reach);
            crate::sight::lemma_point_on_edge(edge.0.y as int, along.y as int, length, reach);
            assert(near.foot.x == round_div(edge.0.x * length + reach * along.x, length));
            assert(near.foot.y == round_div(edge.0.y * length + reach * along.y, length));
        }
    }
}

/// The nearest point of some edges is the nearest point of one of them.
pub proof fn lemma_nearest_is_of_an_edge(edges: Seq<Edge>, p: Point)
    ensures
        nearest_approach(edges, p) matches Some(near) ==> exists|k: int|
            0 <= k < edges.len() && #[trigger] approach(edges[k], p) == Some(near),
    decreases edges.len(),
{
    if edges.len() > 0 {
        let front = edges.drop_last();
        lemma_nearest_is_of_an_edge(front, p);
        if let Some(near) = nearest_approach(edges, p) {
            if approach(edges[edges.len() - 1], p) == Some(near) {
            } else {
                let k = choose|k: int|
                    0 <= k < front.len() && #[trigger] approach(front[k], p) == Some(near);
                assert(front[k] == edges[k]);
                assert(approach(edges[k], p) == Some(near));
            }
        }
    }
}

/// An outline of three points that do not lie on one line gives one
/// triangle, the outline itself: two less than it has points.
pub proof fn lemma_three_points_one_triangle(ring: Seq<Point>)
    requires
        ring.len() == 3,
        twice_area(ring[0], ring[1], ring[2]) != 0,
    ensures
        triangles_of_ring(ring).len() == 3,
        triangles_of_ring(ring) == wound(ring[0], ring[1], ring[2]),
{
}

/// At the first `i` corners of a polygon at most `i` triangles are cut
/// off in one round.
pub proof fn lemma_one_triangle_for_each_corner(
    polygon: Seq<Point>,
    segments: Seq<Edge>,
    start: (Seq<Point>, Seq<Edge>),
    i: nat,
)
    ensures
        cut_ears(polygon, segments, start, i).0.len() <= start.0.len() + 3 * i,
        cut_ears(polygon, segments, start, i).1.len() <= start.1.len() + i,
    decreases i,
{
    if i > 0 {
        lemma_one_triangle_for_each_corner(polygon, segments, start, (i - 1) as nat);
    }
}

/// The coast of an island in bounds is in bounds.
pub proof fn lemma_boundary_in_bounds(island: Seq<Point>)
    requires
        island_wf(island),
    ensures
        edges_in_bounds(island_boundary(island)),
{
    let edges = island_edges(island);
    let kept = island_boundary(island);
    assert forall|k: int| 0 <= k < kept.len() implies (#[trigger] kept[k]).0.in_bounds()
        && kept[k].1.in_bounds() by {
        assert(kept.contains(kept[k]));
        edges.lemma_filter_contains_rev(occurs_once(edges), kept[k]);
        let at = choose|at: int| 0 <= at < edges.len() && edges[at] == kept[k];
        assert(edges[at] == Edge(
            island[3 * (at / 3) + at % 3],
            island[3 * (at / 3) + (at % 3 + 1) % 3],
        ));
    }
}

/// The coast of islands in bounds is in bounds.
pub proof fn lemma_coastline_in_bounds(islands: Seq<Seq<Point>>)
    requires
        forall|i: int| 0 <= i < islands.len() ==> island_wf(#[trigger] islands[i]),
    ensures
        edges_in_bounds(coastline(islands)),
    decreases islands.len(),
{
    let coasts = islands.map_values(|island: Seq<Point>| island_boundary(island));
    if islands.len() == 0 {
        assert(coasts.flatten() =~= Seq::<Edge>::empty());
    } else {
        let front = islands.drop_last();
        let last = islands.last();
        lemma_coastline_in_bounds(front);
        lemma_boundary_in_bounds(last);
        let front_coasts = front.map_values(|island: Seq<Point>| island_boundary(island));
        assert(coasts =~= front_coasts.push(island_boundary(last)));
        front_coasts.lemma_flatten_push(island_boundary(last));
        let whole = coastline(islands);
        assert forall|k: int| 0 <= k < whole.len() implies (#[trigger] whole[k]).0.in_bounds()
            && whole[k].1.in_bounds() by {
            if k < coastline(front).len() {
                assert(whole[k] == coastline(front)[k]);
            } else {
                assert(whole[k] == island_boundary(last)[k - coastline(front).len()]);
            }
        }
    }
}

impl WorldMap {
    /// The coast of a map is in bounds.
    pub proof fn lemma_coast_in_bounds(&self)
        requires
            self.wf(),
        ensures
            edges_in_bounds(self.coast()),
    {
        assert forall|i: int| 0 <= i < rings(self.islands@).len() implies island_wf(
            #[trigger] rings(self.islands@)[i],
        ) by {
            assert(island_wf(self.islands@[i]@));
        }
        lemma_coastline_in_bounds(rings(self.islands@));
    }

    /// The point that `closest_point_on_edge` returns belongs to a point of
    /// the coast, rounded to the lattice, and is off the land wherever the
    /// land does not lie on both sides of the coast there.
    pub proof fn lemma_closest_point_off_land(&self, point: Point)
        requires
            self.wf(),
            point.in_bounds(),
        ensures
            nearest_approach(self.coast(), point) matches Some(near) ==> {
                let nudge = normal(near.along, self.margin as int);
                &&& exists|k: int|
                    0 <= k < self.coast().len() && on_edge_rounded(
                        near.foot,
                        #[trigger] self.coast()[k],
                    )
                &&& (self.nearest_off_coast(point) == translate(near.foot, nudge)
                    || self.nearest_off_coast(point) == translate(near.foot, reversed(nudge)))
                &&& (!self.covers(translate(near.foot, nudge)) || !self.covers(
                    translate(near.foot, reversed(nudge)),
                ) ==> !self.covers(self.nearest_off_coast(point)))
            },
    {
        self.lemma_coast_in_bounds();
        lemma_nearest_is_of_an_edge(self.coast(), point);
        if let Some(near) = nearest_approach(self.coast(), point) {
            let k = choose|k: int|
                0 <= k < self.coast().len() && #[trigger] approach(self.coast()[k], point) == Some(
                    near,
                );
            lemma_foot_on_edge(self.coast()[k], point);
        }
    }
}

} // verus!
