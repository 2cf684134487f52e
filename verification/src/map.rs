//! The map: triangulated islands, their coastline, and the queries on them.

use crate::geometry::{clamped, cross, cross_2d, displacement, on_line, on_segment, scaled_unit, unit_vector, Point, Vector};
use crate::graph::{Edge as GraphEdge, Graph};
use crate::sight::{clear_of, lemma_nearest_none, nearest_crossing, nearest_hit};
use vstd::prelude::*;

verus! {

/// A straight piece of coast between two points. As a piece of coast its
/// direction does not matter: see [`same_edge`].
#[derive(Clone, Copy, Debug, PartialEq, Eq, Hash, Structural)]
pub struct Edge(pub Point, pub Point);

/// The islands of a map, each a flat list of triangles (three points per
/// triangle), and the distance by which points are kept off the coast.
#[derive(Debug)]
pub struct WorldMap {
    pub islands: Vec<Vec<Point>>,
    pub margin: i64,
}

/// Largest distance by which a map may keep points off its coast.
pub const MARGIN_MAX: i64 = 1_000;

/// Two edges are the same piece of coast when they join the same two points.
pub open spec fn same_edge(a: Edge, b: Edge) -> bool {
    (a.0 == b.0 && a.1 == b.1) || (a.0 == b.1 && a.1 == b.0)
}

/// Twice the signed area of the triangle `a b c`: positive when its corners
/// run counter-clockwise.
pub open spec fn twice_area(a: Point, b: Point, c: Point) -> int {
    cross(displacement(a, b), displacement(a, c))
}

/// Whether `p` lies inside the triangle `a b c` or on its boundary.
pub open spec fn in_triangle(p: Point, a: Point, b: Point, c: Point) -> bool {
    let side_ab = cross(displacement(a, b), displacement(a, p));
    let side_bc = cross(displacement(b, c), displacement(b, p));
    let side_ca = cross(displacement(c, a), displacement(c, p));
    if twice_area(a, b, c) == 0 {
        ||| on_segment(p, a, displacement(a, b))
        ||| on_segment(p, b, displacement(b, c))
        ||| on_segment(p, c, displacement(c, a))
    } else {
        ||| (side_ab >= 0 && side_bc >= 0 && side_ca >= 0)
        ||| (side_ab <= 0 && side_bc <= 0 && side_ca <= 0)
    }
}

/// Whether the triangle number `t` of `island` holds `p`.
pub open spec fn triangle_holds(island: Seq<Point>, t: int, p: Point) -> bool {
    in_triangle(p, island[3 * t], island[3 * t + 1], island[3 * t + 2])
}

/// Whether some triangle of `island` holds `p`.
pub open spec fn island_covers(island: Seq<Point>, p: Point) -> bool {
    exists|t: int| 0 <= t < island.len() / 3 && #[trigger] triangle_holds(island, t, p)
}

/// A flat list of triangles whose points are all in bounds.
pub open spec fn island_wf(island: Seq<Point>) -> bool {
    &&& island.len() % 3 == 0
    &&& forall|k: int| 0 <= k < island.len() ==> (#[trigger] island[k]).in_bounds()
}

/// The three sides of every triangle of `island`, in the order of the list.
pub open spec fn island_edges(island: Seq<Point>) -> Seq<Edge> {
    Seq::new(
        (3 * (island.len() / 3)) as nat,
        |k: int| Edge(island[3 * (k / 3) + k % 3], island[3 * (k / 3) + (k % 3 + 1) % 3]),
    )
}

/// The test "is the same piece of coast as `e`".
pub open spec fn same_as(e: Edge) -> spec_fn(Edge) -> bool {
    |other: Edge| same_edge(other, e)
}

/// How many of `edges` are the same piece of coast as `e`.
pub open spec fn occurrences(edges: Seq<Edge>, e: Edge) -> nat {
    edges.filter(same_as(e)).len()
}

/// The test "occurs exactly once among `edges`".
pub open spec fn occurs_once(edges: Seq<Edge>) -> spec_fn(Edge) -> bool {
    |e: Edge| occurrences(edges, e) == 1
}

/// The sides that belong to one triangle of `island` only: its coast.
pub open spec fn island_boundary(island: Seq<Point>) -> Seq<Edge> {
    island_edges(island).filter(occurs_once(island_edges(island)))
}

/// The coast of every island, island after island.
pub open spec fn coastline(islands: Seq<Seq<Point>>) -> Seq<Edge> {
    islands.map_values(|island: Seq<Point>| island_boundary(island)).flatten()
}

/// Whether both ends of every edge are in bounds.
pub open spec fn edges_in_bounds(edges: Seq<Edge>) -> bool {
    forall|k: int|
        0 <= k < edges.len() ==> (#[trigger] edges[k]).0.in_bounds() && edges[k].1.in_bounds()
}

/// The points of the inner vectors, as sequences.
pub open spec fn rings(islands: Seq<Vec<Point>>) -> Seq<Seq<Point>> {
    islands.map_values(|island: Vec<Point>| island@)
}

/// Whether the triangle `a b c` holds `p`.
pub fn triangle_contains(p: Point, a: Point, b: Point, c: Point) -> (inside: bool)
    requires
        p.in_bounds(),
        a.in_bounds(),
        b.in_bounds(),
        c.in_bounds(),
    ensures
        inside == in_triangle(p, a, b, c),
{
    let a_b = b.minus(&a);
    let b_c = c.minus(&b);
    let c_a = a.minus(&c);
    let area = cross_2d(a_b, c.minus(&a));
    if area == 0 {
        on_line(p, a, a_b) || on_line(p, b, b_c) || on_line(p, c, c_a)
    } else {
        let a_cross = cross_2d(a_b, p.minus(&a));
        let b_cross = cross_2d(b_c, p.minus(&b));
        let c_cross = cross_2d(c_a, p.minus(&c));
        (a_cross >= 0 && b_cross >= 0 && c_cross >= 0) || (a_cross <= 0 && b_cross <= 0 && c_cross
            <= 0)
    }
}

/// Whether some triangle of `island` holds `point`.
pub fn island_contains(island: &Vec<Point>, point: Point) -> (inside: bool)
    requires
        island_wf(island@),
        point.in_bounds(),
    ensures
        inside == island_covers(island@, point),
{
    let count = island.len() / 3;
    let mut t: usize = 0;
    while t < count
        invariant
            count == island@.len() / 3,
            3 * count <= island@.len() <= usize::MAX,
            island_wf(island@),
            point.in_bounds(),
            0 <= t <= count,
            forall|s: int| 0 <= s < t ==> !#[trigger] triangle_holds(island@, s, point),
        decreases count - t,
    {
        if triangle_contains(point, island[3 * t], island[3 * t + 1], island[3 * t + 2]) {
            assert(triangle_holds(island@, t as int, point));
            return true;
        }
        t += 1;
    }
    false
}

/// The sides of the triangles of `island`.
pub fn edges_of_island(island: &Vec<Point>) -> (edges: Vec<Edge>)
    requires
        island_wf(island@),
    ensures
        edges@ == island_edges(island@),
        edges_in_bounds(edges@),
{
    let count = island.len() / 3;
    let mut edges: Vec<Edge> = Vec::new();
    let mut t: usize = 0;
    while t < count
        invariant
            count == island@.len() / 3,
            3 * count == island@.len() <= usize::MAX,
            island_wf(island@),
            edges_in_bounds(edges@),
            0 <= t <= count,
            edges@.len() == 3 * t,
            forall|k: int| 0 <= k < 3 * t ==> #[trigger] edges@[k] == island_edges(island@)[k],
        decreases count - t,
    {
        let a = island[3 * t];
        let b = island[3 * t + 1];
        let c = island[3 * t + 2];
        edges.push(Edge(a, b));
        edges.push(Edge(b, c));
        edges.push(Edge(c, a));
        t += 1;
    }
    assert(edges@ =~= island_edges(island@));
    edges
}

/// How many of `edges` join the same two points as `e`.
pub fn count_occurrences(edges: &Vec<Edge>, e: Edge) -> (count: usize)
    ensures
        count == occurrences(edges@, e),
{
    let mut count: usize = 0;
    let mut j: usize = 0;
    while j < edges.len()
        invariant
            0 <= j <= edges@.len(),
            count == edges@.take(j as int).filter(same_as(e)).len(),
            count <= j,
        decreases edges@.len() - j,
    {
        let other = edges[j];
        proof {
            assert(edges@.take(j as int + 1) =~= edges@.take(j as int).push(other));
            edges@.take(j as int).lemma_filter_push(other, same_as(e));
        }
        if (other.0 == e.0 && other.1 == e.1) || (other.0 == e.1 && other.1 == e.0) {
            count += 1;
        }
        j += 1;
    }
    assert(edges@.take(edges@.len() as int) =~= edges@);
    count
}

/// The coast of one island: the sides of its triangles that no other
/// triangle of the island shares.
pub fn boundary_of_island(island: &Vec<Point>) -> (coast: Vec<Edge>)
    requires
        island_wf(island@),
    ensures
        coast@ == island_boundary(island@),
        edges_in_bounds(coast@),
{
    let edges = edges_of_island(island);
    let mut coast: Vec<Edge> = Vec::new();
    let mut k: usize = 0;
    while k < edges.len()
        invariant
            edges@ == island_edges(island@),
            edges_in_bounds(edges@),
            edges_in_bounds(coast@),
            0 <= k <= edges@.len(),
            coast@ == edges@.take(k as int).filter(occurs_once(edges@)),
        decreases edges@.len() - k,
    {
        let e = edges[k];
        proof {
            assert(edges@.take(k as int + 1) =~= edges@.take(k as int).push(e));
            edges@.take(k as int).lemma_filter_push(e, occurs_once(edges@));
        }
        if count_occurrences(&edges, e) == 1 {
            coast.push(e);
        }
        k += 1;
    }
    assert(edges@.take(edges@.len() as int) =~= edges@);
    coast
}

/// The end points of `edges`, each once, in the order in which they first
/// occur.
pub open spec fn corner_points(edges: Seq<Edge>) -> Seq<Point>
    decreases edges.len(),
{
    if edges.len() == 0 {
        Seq::empty()
    } else {
        let before = corner_points(edges.drop_last());
        let with_first = if before.contains(edges.last().0) {
            before
        } else {
            before.push(edges.last().0)
        };
        if with_first.contains(edges.last().1) {
            with_first
        } else {
            with_first.push(edges.last().1)
        }
    }
}

/// The edges of the coast as pairs of indices into its corners.
pub open spec fn corner_edges(coast: Seq<Edge>) -> Seq<GraphEdge> {
    Seq::new(
        coast.len(),
        |k: int|
            GraphEdge(
                corner_points(coast).index_of(coast[k].0) as usize,
                corner_points(coast).index_of(coast[k].1) as usize,
            ),
    )
}

/// The sum of the vectors of length `margin` that point to the corner
/// number `corner` from each of its neighbours along the first `n` edges.
pub open spec fn push_out(
    corners: Seq<Point>,
    edges: Seq<GraphEdge>,
    corner: int,
    margin: int,
    n: nat,
) -> (int, int)
    decreases n,
{
    if n == 0 {
        (0, 0)
    } else {
        let before = push_out(corners, edges, corner, margin, (n - 1) as nat);
        let edge = edges[n - 1];
        if edge.0 == corner {
            let unit = scaled_unit(displacement(corners[edge.1 as int], corners[corner]), margin);
            (before.0 + unit.x, before.1 + unit.y)
        } else if edge.1 == corner {
            let unit = scaled_unit(displacement(corners[edge.0 as int], corners[corner]), margin);
            (before.0 + unit.x, before.1 + unit.y)
        } else {
            before
        }
    }
}

/// The corner number `corner`, moved away from its neighbours along the
/// coast by `margin` for each of them, and held within bounds.
pub open spec fn pushed_corner(
    corners: Seq<Point>,
    edges: Seq<GraphEdge>,
    corner: int,
    margin: int,
) -> Point {
    let push = push_out(corners, edges, corner, margin, edges.len());
    Point {
        x: clamped(corners[corner].x + push.0) as i64,
        y: clamped(corners[corner].y + push.1) as i64,
    }
}

/// Every corner of the coast, moved off the coast by `margin`.
pub open spec fn pushed_corners(coast: Seq<Edge>, margin: int) -> Seq<Point> {
    Seq::new(
        corner_points(coast).len(),
        |i: int| pushed_corner(corner_points(coast), corner_edges(coast), i, margin),
    )
}

/// Whether the straight way from `from` to `to` meets no piece of `coast`,
/// not even at an end of either.
pub open spec fn in_sight(coast: Seq<Edge>, from: Point, to: Point) -> bool {
    clear_of(coast, from, displacement(from, to), true)
}

/// The connections from the node number `from` to those of the first `upto`
/// nodes that are in its sight, in the order of the nodes.
pub open spec fn sight_row(coast: Seq<Edge>, nodes: Seq<Point>, from: int, upto: nat) -> Seq<
    GraphEdge,
>
    decreases upto,
{
    if upto == 0 {
        Seq::empty()
    } else {
        let before = sight_row(coast, nodes, from, (upto - 1) as nat);
        let to = upto - 1;
        if to != from && in_sight(coast, nodes[from], nodes[to]) {
            before.push(GraphEdge(from as usize, to as usize))
        } else {
            before
        }
    }
}

/// The connections from each of the `count` nodes that start at number
/// `first` to all nodes in its sight.
pub open spec fn sight_rows(coast: Seq<Edge>, nodes: Seq<Point>, first: int, count: nat) -> Seq<
    GraphEdge,
>
    decreases count,
{
    if count == 0 {
        Seq::empty()
    } else {
        sight_rows(coast, nodes, first, (count - 1) as nat) + sight_row(
            coast,
            nodes,
            first + count - 1,
            nodes.len(),
        )
    }
}

/// Whether every point is in bounds.
pub open spec fn points_in_bounds(points: Seq<Point>) -> bool {
    forall|i: int| 0 <= i < points.len() ==> (#[trigger] points[i]).in_bounds()
}

/// The first place of `p` among `points`.
pub fn position_of(points: &Vec<Point>, p: Point) -> (at: Option<usize>)
    ensures
        at matches Some(i) ==> i < points@.len() && points@[i as int] == p,
        at matches Some(i) ==> forall|j: int| 0 <= j < i ==> points@[j] != p,
        at is None ==> !points@.contains(p),
{
    let mut i: usize = 0;
    while i < points.len()
        invariant
            0 <= i <= points@.len(),
            forall|j: int| 0 <= j < i ==> points@[j] != p,
        decreases points@.len() - i,
    {
        if points[i] == p {
            return Some(i);
        }
        i += 1;
    }
    None
}

/// The end points of `edges`, each once, in the order in which they first
/// occur.
pub fn corners_of(edges: &Vec<Edge>) -> (corners: Vec<Point>)
    requires
        edges_in_bounds(edges@),
    ensures
        corners@ == corner_points(edges@),
        corners@.no_duplicates(),
        points_in_bounds(corners@),
        forall|k: int|
            0 <= k < edges@.len() ==> corners@.contains((#[trigger] edges@[k]).0)
                && corners@.contains(edges@[k].1),
{
    let mut corners: Vec<Point> = Vec::new();
    let mut k: usize = 0;
    while k < edges.len()
        invariant
            edges_in_bounds(edges@),
            0 <= k <= edges@.len(),
            corners@ == corner_points(edges@.take(k as int)),
            corners@.no_duplicates(),
            points_in_bounds(corners@),
            forall|j: int|
                0 <= j < k ==> corners@.contains((#[trigger] edges@[j]).0) && corners@.contains(
                    edges@[j].1,
                ),
        decreases edges@.len() - k,
    {
        let edge = edges[k];
        let ghost before = corners@;
        proof {
            let next = edges@.take(k as int + 1);
            assert(next.drop_last() =~= edges@.take(k as int));
            assert(next.last() == edge);
        }
        if position_of(&corners, edge.0).is_none() {
            corners.push(edge.0);
        }
        let ghost middle = corners@;
        if position_of(&corners, edge.1).is_none() {
            corners.push(edge.1);
        }
        proof {
            assert(forall|i: int| 0 <= i < before.len() ==> middle[i] == before[i]);
            assert(forall|i: int| 0 <= i < middle.len() ==> corners@[i] == middle[i]);
            assert(middle.contains(edge.0)) by {
                if before.contains(edge.0) {
                    let at = choose|at: int| 0 <= at < before.len() && before[at] == edge.0;
                    assert(middle[at] == edge.0);
                } else {
                    assert(middle[middle.len() - 1] == edge.0);
                }
            }
            assert(corners@.contains(edge.0)) by {
                let at = choose|at: int| 0 <= at < middle.len() && middle[at] == edge.0;
                assert(corners@[at] == edge.0);
            }
            assert(corners@.contains(edge.1)) by {
                if middle.contains(edge.1) {
                    let at = choose|at: int| 0 <= at < middle.len() && middle[at] == edge.1;
                    assert(corners@[at] == edge.1);
                } else {
                    assert(corners@[corners@.len() - 1] == edge.1);
                }
            }
            assert forall|j: int| 0 <= j < k + 1 implies corners@.contains(
                (#[trigger] edges@[j]).0,
            ) && corners@.contains(edges@[j].1) by {
                if j < k {
                    let a = choose|a: int| 0 <= a < before.len() && before[a] == edges@[j].0;
                    assert(corners@[a] == edges@[j].0);
                    let b = choose|b: int| 0 <= b < before.len() && before[b] == edges@[j].1;
                    assert(corners@[b] == edges@[j].1);
                }
            }
        }
        k += 1;
    }
    assert(edges@.take(edges@.len() as int) =~= edges@);
    corners
}

/// The edges of the coast as pairs of indices into `corners`.
pub fn index_edges(coast: &Vec<Edge>, corners: &Vec<Point>) -> (edges: Vec<GraphEdge>)
    requires
        corners@ == corner_points(coast@),
        corners@.no_duplicates(),
        forall|k: int|
            0 <= k < coast@.len() ==> corners@.contains((#[trigger] coast@[k]).0)
                && corners@.contains(coast@[k].1),
    ensures
        edges@ == corner_edges(coast@),
        forall|k: int|
            0 <= k < edges@.len() ==> (#[trigger] edges@[k]).0 < corners@.len() && edges@[k].1
                < corners@.len(),
        forall|k: int|
            0 <= k < edges@.len() ==> corners@[(#[trigger] edges@[k]).0 as int] == coast@[k].0
                && corners@[edges@[k].1 as int] == coast@[k].1,
{
    let mut edges: Vec<GraphEdge> = Vec::new();
    let mut k: usize = 0;
    while k < coast.len()
        invariant
            corners@ == corner_points(coast@),
            corners@.no_duplicates(),
            forall|j: int|
                0 <= j < coast@.len() ==> corners@.contains((#[trigger] coast@[j]).0)
                    && corners@.contains(coast@[j].1),
            0 <= k <= coast@.len(),
            edges@.len() == k,
            forall|j: int| 0 <= j < k ==> #[trigger] edges@[j] == corner_edges(coast@)[j],
            forall|j: int|
                0 <= j < k ==> (#[trigger] edges@[j]).0 < corners@.len() && edges@[j].1
                    < corners@.len(),
            forall|j: int|
                0 <= j < k ==> corners@[(#[trigger] edges@[j]).0 as int] == coast@[j].0
                    && corners@[edges@[j].1 as int] == coast@[j].1,
        decreases coast@.len() - k,
    {
        let edge = coast[k];
        assert(corners@.contains(coast@[k as int].0) && corners@.contains(coast@[k as int].1));
        let from = match position_of(corners, edge.0) {
            Some(i) => i,
            None => 0,
        };
        let to = match position_of(corners, edge.1) {
            Some(i) => i,
            None => 0,
        };
        proof {
            let first = corners@.index_of(edge.0);
            let second = corners@.index_of(edge.1);
            assert(corners@[from as int] == edge.0);
            assert(corners@[to as int] == edge.1);
            assert(0 <= first < corners@.len() && corners@[first] == edge.0);
            assert(0 <= second < corners@.len() && corners@[second] == edge.1);
            assert(first == from);
            assert(second == to);
        }
        edges.push(GraphEdge(from, to));
        k += 1;
    }
    assert(edges@ =~= corner_edges(coast@));
    edges
}

/// The corner number `corner`, moved off the coast by `margin`.
pub fn push_corner(corners: &Vec<Point>, edges: &Vec<GraphEdge>, corner: usize, margin: i64) -> (moved:
    Point)
    requires
        points_in_bounds(corners@),
        corner < corners@.len(),
        0 <= margin <= MARGIN_MAX,
        forall|k: int|
            0 <= k < edges@.len() ==> (#[trigger] edges@[k]).0 < corners@.len() && edges@[k].1
                < corners@.len(),
    ensures
        moved == pushed_corner(corners@, edges@, corner as int, margin as int),
        moved.in_bounds(),
{
    let mut push_x: i128 = 0;
    let mut push_y: i128 = 0;
    let mut k: usize = 0;
    while k < edges.len()
        invariant
            points_in_bounds(corners@),
            corner < corners@.len(),
            0 <= margin <= MARGIN_MAX,
            forall|j: int|
                0 <= j < edges@.len() ==> (#[trigger] edges@[j]).0 < corners@.len() && edges@[j].1
                    < corners@.len(),
            0 <= k <= edges@.len(),
            (push_x as int, push_y as int) == push_out(
                corners@,
                edges@,
                corner as int,
                margin as int,
                k as nat,
            ),
            -(k * MARGIN_MAX) <= push_x <= k * MARGIN_MAX,
            -(k * MARGIN_MAX) <= push_y <= k * MARGIN_MAX,
        decreases edges@.len() - k,
    {
        let edge = edges[k];
        assert(edges@[k as int].0 < corners@.len());
        if edge.0 == corner {
            let unit = unit_vector(corners[corner].minus(&corners[edge.1]), margin);
            push_x = push_x + unit.x as i128;
            push_y = push_y + unit.y as i128;
        } else if edge.1 == corner {
            let unit = unit_vector(corners[corner].minus(&corners[edge.0]), margin);
            push_x = push_x + unit.x as i128;
            push_y = push_y + unit.y as i128;
        }
        k += 1;
    }
    let here = corners[corner];
    Point { x: clamp_wide(here.x as i128 + push_x), y: clamp_wide(here.y as i128 + push_y) }
}

/// `value` brought into the range of a coordinate.
pub fn clamp_wide(value: i128) -> (c: i64)
    ensures
        c == clamped(value as int),
        -crate::geometry::COORDINATE_MAX <= c <= crate::geometry::COORDINATE_MAX,
{
    if value < -(crate::geometry::COORDINATE_MAX as i128) {
        -crate::geometry::COORDINATE_MAX
    } else if value > crate::geometry::COORDINATE_MAX as i128 {
        crate::geometry::COORDINATE_MAX
    } else {
        value as i64
    }
}

impl Default for WorldMap {
    /// A map without islands.
    fn default() -> (map: WorldMap)
        ensures
            map.islands@.len() == 0,
            map.margin == 0,
            map.wf(),
    {
        WorldMap { islands: Vec::new(), margin: 0 }
    }
}

impl WorldMap {
    /// Every island is a flat list of triangles in bounds, and the margin is
    /// between 0 and `MARGIN_MAX`.
    pub open spec fn wf(&self) -> bool {
        &&& 0 <= self.margin <= MARGIN_MAX
        &&& forall|i: int|
            0 <= i < self.islands@.len() ==> island_wf((#[trigger] self.islands@[i])@)
    }

    /// Whether `point` lies within or on the boundary of a triangle of the
    /// map.
    pub open spec fn covers(&self, point: Point) -> bool {
        exists|i: int|
            0 <= i < self.islands@.len() && island_covers((#[trigger] self.islands@[i])@, point)
    }

    /// The coast of the map: see [`coastline`].
    pub open spec fn coast(&self) -> Seq<Edge> {
        coastline(rings(self.islands@))
    }

    /// Whether the map is well formed.
    pub fn is_valid(&self) -> (valid: bool)
        ensures
            valid == self.wf(),
    {
        if self.margin < 0 || self.margin > MARGIN_MAX {
            return false;
        }
        let mut i: usize = 0;
        while i < self.islands.len()
            invariant
                0 <= i <= self.islands@.len(),
                forall|a: int| 0 <= a < i ==> island_wf((#[trigger] self.islands@[a])@),
            decreases self.islands@.len() - i,
        {
            let island = &self.islands[i];
            if island.len() % 3 != 0 {
                assert(!island_wf(self.islands@[i as int]@));
                return false;
            }
            let mut k: usize = 0;
            while k < island.len()
                invariant
                    0 <= i < self.islands@.len(),
                    *island == self.islands@[i as int],
                    0 <= k <= island@.len(),
                    forall|j: int| 0 <= j < k ==> (#[trigger] island@[j]).in_bounds(),
                decreases island@.len() - k,
            {
                if !island[k].is_in_bounds() {
                    assert(!island_wf(self.islands@[i as int]@));
                    return false;
                }
                k += 1;
            }
            i += 1;
        }
        true
    }

    /// The corners of all triangles, island after island.
    pub fn into_vertices(&self) -> (vertices: Vec<Point>)
        ensures
            vertices@ == rings(self.islands@).flatten(),
    {
        let mut vertices: Vec<Point> = Vec::new();
        let mut i: usize = 0;
        while i < self.islands.len()
            invariant
                0 <= i <= self.islands@.len(),
                vertices@ == rings(self.islands@).take(i as int).flatten(),
            decreases self.islands@.len() - i,
        {
            let island = &self.islands[i];
            let ghost before = vertices@;
            let mut k: usize = 0;
            while k < island.len()
                invariant
                    0 <= k <= island@.len(),
                    vertices@ == before + island@.take(k as int),
                decreases island@.len() - k,
            {
                vertices.push(island[k]);
                assert(island@.take(k as int + 1) =~= island@.take(k as int).push(island@[k as int]));
                k += 1;
            }
            proof {
                assert(island@.take(island@.len() as int) =~= island@);
                let all = rings(self.islands@);
                assert(all.take(i as int + 1) =~= all.take(i as int).push(island@));
                all.take(i as int).lemma_flatten_push(island@);
            }
            i += 1;
        }
        assert(rings(self.islands@).take(self.islands@.len() as int) =~= rings(self.islands@));
        vertices
    }

    /// The coast of the map: for each island, the sides of its triangles
    /// that belong to one triangle only.
    pub fn outer_edges(&self) -> (edges: Vec<Edge>)
        requires
            self.wf(),
        ensures
            edges@ == self.coast(),
            edges_in_bounds(edges@),
    {
        let mut edges: Vec<Edge> = Vec::new();
        let ghost per_island = rings(self.islands@).map_values(
            |island: Seq<Point>| island_boundary(island),
        );
        let mut i: usize = 0;
        while i < self.islands.len()
            invariant
                self.wf(),
                0 <= i <= self.islands@.len(),
                per_island == rings(self.islands@).map_values(
                    |island: Seq<Point>| island_boundary(island),
                ),
                edges@ == per_island.take(i as int).flatten(),
                edges_in_bounds(edges@),
            decreases self.islands@.len() - i,
        {
            let mut coast = boundary_of_island(&self.islands[i]);
            proof {
                assert(coast@ == per_island[i as int]);
                assert(per_island.take(i as int + 1) =~= per_island.take(i as int).push(coast@));
                per_island.take(i as int).lemma_flatten_push(coast@);
            }
            edges.append(&mut coast);
            i += 1;
        }
        assert(per_island.take(self.islands@.len() as int) =~= per_island);
        edges
    }

    /// Whether `point` lies on land: within or on the boundary of a
    /// triangle of the map.
    pub fn on_land(&self, point: Point) -> (land: bool)
        requires
            self.wf(),
            point.in_bounds(),
        ensures
            land == self.covers(point),
    {
        let mut i: usize = 0;
        while i < self.islands.len()
            invariant
                self.wf(),
                point.in_bounds(),
                0 <= i <= self.islands@.len(),
                forall|a: int|
                    0 <= a < i ==> !island_covers((#[trigger] self.islands@[a])@, point),
            decreases self.islands@.len() - i,
        {
            if island_contains(&self.islands[i], point) {
                return true;
            }
            i += 1;
        }
        false
    }
    /// The corners of the coast, each moved off the coast by the margin:
    /// see [`pushed_corners`].
    pub open spec fn corners(&self) -> Seq<Point> {
        pushed_corners(self.coast(), self.margin as int)
    }

    /// The coast as connections between its corners: see [`corner_edges`].
    pub open spec fn corner_edges(&self) -> Seq<GraphEdge> {
        corner_edges(self.coast())
    }

    /// The corners of the coast, moved off the coast by the margin so that
    /// routes keep clear of it, and the coast as connections between them.
    pub fn corners_and_edges(&self) -> (graph: (Vec<Point>, Vec<GraphEdge>))
        requires
            self.wf(),
        ensures
            graph.0@ == self.corners(),
            graph.1@ == self.corner_edges(),
            points_in_bounds(graph.0@),
            forall|k: int|
                0 <= k < graph.1@.len() ==> (#[trigger] graph.1@[k]).0 < graph.0@.len()
                    && graph.1@[k].1 < graph.0@.len(),
    {
        let outer_edges = self.outer_edges();
        let corners = corners_of(&outer_edges);
        let edges = index_edges(&outer_edges, &corners);
        let mut adjusted_corners: Vec<Point> = Vec::new();
        let mut i: usize = 0;
        while i < corners.len()
            invariant
                0 <= self.margin <= MARGIN_MAX,
                points_in_bounds(corners@),
                forall|k: int|
                    0 <= k < edges@.len() ==> (#[trigger] edges@[k]).0 < corners@.len()
                        && edges@[k].1 < corners@.len(),
                0 <= i <= corners@.len(),
                adjusted_corners@.len() == i,
                points_in_bounds(adjusted_corners@),
                forall|j: int|
                    0 <= j < i ==> #[trigger] adjusted_corners@[j] == pushed_corner(
                        corners@,
                        edges@,
                        j,
                        self.margin as int,
                    ),
            decreases corners@.len() - i,
        {
            adjusted_corners.push(push_corner(&corners, &edges, i, self.margin));
            i += 1;
        }
        assert(adjusted_corners@ =~= self.corners());
        (adjusted_corners, edges)
    }

    /// Where the line from `starting_point` along `line_direction` first
    /// meets the coast, if it does: see [`nearest_crossing`].
    pub fn closest_point_of_line_on_edge(
        &self,
        starting_point: Point,
        line_direction: Vector,
        strict: bool,
    ) -> (meeting: Option<Point>)
        requires
            self.wf(),
            starting_point.in_bounds(),
            line_direction.in_bounds(),
        ensures
            meeting == match nearest_crossing(
                self.coast(),
                starting_point,
                line_direction,
                strict,
            ) {
                Some(found) => Some(found.point),
                None => None,
            },
            meeting is None <==> clear_of(self.coast(), starting_point, line_direction, strict),
            meeting matches Some(point) ==> point.in_bounds(),
    {
        let outer_edges = self.outer_edges();
        proof {
            lemma_nearest_none(self.coast(), starting_point, line_direction, strict);
        }
        match nearest_hit(&outer_edges, starting_point, line_direction, strict) {
            Some(found) => Some(found.point),
            None => None,
        }
    }

    /// The corners of the coast and `points` as the nodes of a graph, with
    /// the coast as connections between the corners, and a connection from
    /// each of `points` to every other node in its sight.
    pub fn nodes_and_edges_connected(&self, points: Vec<Point>) -> (graph: Graph)
        requires
            self.wf(),
            points_in_bounds(points@),
        ensures
            graph.nodes@ == self.corners() + points@,
            graph.edges@ == self.corner_edges() + sight_rows(
                self.coast(),
                graph.nodes@,
                self.corners().len() as int,
                points@.len(),
            ),
            points_in_bounds(graph.nodes@),
            forall|k: int|
                0 <= k < graph.edges@.len() ==> (#[trigger] graph.edges@[k]).0
                    < graph.nodes@.len() && graph.edges@[k].1 < graph.nodes@.len(),
            forall|k: int|
                self.corner_edges().len() <= k < graph.edges@.len() ==> graph.edges@[k].0
                    != graph.edges@[k].1 && in_sight(
                    self.coast(),
                    graph.nodes@[(#[trigger] graph.edges@[k]).0 as int],
                    graph.nodes@[graph.edges@[k].1 as int],
                ),
    {
        let outer_edges = self.outer_edges();
        let (corners, mut edges) = self.corners_and_edges();
        let corners_count = corners.len();
        let ghost static_edges = edges@;
        let mut nodes: Vec<Point> = corners;
        let mut p: usize = 0;
        while p < points.len()
            invariant
                0 <= p <= points@.len(),
                nodes@ == self.corners() + points@.take(p as int),
            decreases points@.len() - p,
        {
            nodes.push(points[p]);
            assert(points@.take(p as int + 1) =~= points@.take(p as int).push(points@[p as int]));
            p += 1;
        }
        assert(points@.take(points@.len() as int) =~= points@);
        assert(points_in_bounds(nodes@)) by {
            assert forall|i: int| 0 <= i < nodes@.len() implies (#[trigger] nodes@[i]).in_bounds() by {
                if i >= corners_count {
                    assert(nodes@[i] == points@[i - corners_count]);
                }
            }
        }
        let total = nodes.len();
        let mut point_index: usize = 0;
        while point_index < points.len()
            invariant
                self.wf(),
                outer_edges@ == self.coast(),
                edges_in_bounds(outer_edges@),
                nodes@ == self.corners() + points@,
                nodes@.len() == corners_count + points@.len(),
                nodes@.len() <= usize::MAX,
                corners_count == self.corners().len(),
                static_edges == self.corner_edges(),
                points_in_bounds(nodes@),
                0 <= point_index <= points@.len(),
                edges@ == static_edges + sight_rows(
                    self.coast(),
                    nodes@,
                    corners_count as int,
                    point_index as nat,
                ),
                forall|k: int|
                    0 <= k < edges@.len() ==> (#[trigger] edges@[k]).0 < nodes@.len()
                        && edges@[k].1 < nodes@.len(),
                forall|k: int|
                    static_edges.len() <= k < edges@.len() ==> edges@[k].0 != edges@[k].1
                        && in_sight(
                        self.coast(),
                        nodes@[(#[trigger] edges@[k]).0 as int],
                        nodes@[edges@[k].1 as int],
                    ),
            decreases points@.len() - point_index,
        {
            let corrected_point_index = point_index + corners_count;
            let point = nodes[corrected_point_index];
            let ghost rows_before = edges@;
            let mut node_index: usize = 0;
            while node_index < nodes.len()
                invariant
                    self.wf(),
                    outer_edges@ == self.coast(),
                    edges_in_bounds(outer_edges@),
                    points_in_bounds(nodes@),
                    corrected_point_index == point_index + corners_count,
                    corrected_point_index < nodes@.len(),
                    point == nodes@[corrected_point_index as int],
                    0 <= node_index <= nodes@.len(),
                    static_edges.len() <= rows_before.len(),
                    edges@ == rows_before + sight_row(
                        self.coast(),
                        nodes@,
                        corrected_point_index as int,
                        node_index as nat,
                    ),
                    forall|k: int|
                        0 <= k < edges@.len() ==> (#[trigger] edges@[k]).0 < nodes@.len()
                            && edges@[k].1 < nodes@.len(),
                    forall|k: int|
                        static_edges.len() <= k < edges@.len() ==> edges@[k].0 != edges@[k].1
                            && in_sight(
                            self.coast(),
                            nodes@[(#[trigger] edges@[k]).0 as int],
                            nodes@[edges@[k].1 as int],
                        ),
                decreases nodes@.len() - node_index,
            {
                let node = nodes[node_index];
                let way = node.minus(&point);
                proof {
                    lemma_nearest_none(self.coast(), point, way, true);
                }
                let closest_point = nearest_hit(&outer_edges, point, way, true);
                if closest_point.is_none() && corrected_point_index != node_index {
                    edges.push(GraphEdge(corrected_point_index, node_index));
                }
                assert(edges@ =~= rows_before + sight_row(
                    self.coast(),
                    nodes@,
                    corrected_point_index as int,
                    (node_index + 1) as nat,
                ));
                node_index += 1;
            }
            proof {
                let rows = sight_rows(
                    self.coast(),
                    nodes@,
                    corners_count as int,
                    point_index as nat,
                );
                let row = sight_row(
                    self.coast(),
                    nodes@,
                    corrected_point_index as int,
                    nodes@.len(),
                );
                assert(edges@ =~= static_edges + (rows + row));
            }
            point_index += 1;
        }
        Graph { nodes, edges }
    }
}

} // verus!
