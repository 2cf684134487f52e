//! Routes through a graph, what they cost, and why the straight way is
//! never longer than a way round.

use crate::geometry::{displacement, dot, is_root, lemma_product_bound, root, root_up, Point};
use crate::graph::{way_cost, Graph};
use vstd::prelude::*;

verus! {

/// Largest cost of the straight way between two points in bounds.
pub const STEP_MAX: u64 = 1_500_000;

impl Graph {
    /// Whether an edge joins the node number `i` of `route` to the next.
    pub open spec fn linked(&self, route: Seq<int>, i: int) -> bool {
        self.adjacent(route[i], route[i + 1])
    }

    /// Whether `route` is a way through the graph: at least one node, and
    /// an edge from each node to the next.
    pub open spec fn is_route(&self, route: Seq<int>) -> bool {
        &&& route.len() >= 1
        &&& forall|i: int| 0 <= i < route.len() ==> 0 <= #[trigger] route[i] < self.nodes@.len()
        &&& forall|i: int| 0 <= i < route.len() - 1 ==> #[trigger] self.linked(route, i)
    }

    /// Whether `route` is a way through the graph from `start` to `end`.
    pub open spec fn connects(&self, route: Seq<int>, start: int, end: int) -> bool {
        self.is_route(route) && route[0] == start && route[route.len() - 1] == end
    }

    /// The sum of the costs of the steps of `route`.
    pub open spec fn route_cost(&self, route: Seq<int>) -> int
        decreases route.len(),
    {
        if route.len() <= 1 {
            0
        } else {
            self.route_cost(route.drop_last()) + self.step_cost(
                route[route.len() - 2],
                route[route.len() - 1],
            )
        }
    }

    /// Whether there is a way through the graph from `start` to `end`.
    pub open spec fn reachable(&self, start: int, end: int) -> bool {
        exists|route: Seq<int>| self.connects(route, start, end)
    }

    /// Whether `route` leads from `start` to `end`, and no way from `start`
    /// to `end` costs less.
    pub open spec fn shortest(&self, route: Seq<int>, start: int, end: int) -> bool {
        &&& self.connects(route, start, end)
        &&& forall|other: Seq<int>| #[trigger]
            self.connects(other, start, end) ==> self.route_cost(route) <= self.route_cost(other)
    }

    /// The positions of the nodes of `route`.
    pub open spec fn positions(&self, route: Seq<int>) -> Seq<Point> {
        Seq::new(route.len(), |i: int| self.nodes@[route[i]])
    }
}

/// Every number that is not negative has an integer square root.
pub proof fn lemma_root_exists(n: int)
    requires
        n >= 0,
    ensures
        is_root(n, root(n)),
    decreases n,
{
    if n == 0 {
        assert(is_root(0, 0));
    } else {
        lemma_root_exists(n - 1);
        let r = root(n - 1);
        if (r + 1) * (r + 1) <= n {
            assert(is_root(n, r + 1)) by (nonlinear_arith)
                requires
                    r >= 0,
                    r * r <= n - 1 < (r + 1) * (r + 1),
                    (r + 1) * (r + 1) <= n,
            ;
        } else {
            assert(is_root(n, r));
        }
    }
}

/// The root rounded up is the least number whose square reaches `n`.
pub proof fn lemma_root_up_least(n: int, r: int)
    requires
        n >= 0,
        r >= 0,
        r * r >= n,
    ensures
        0 <= root_up(n) <= r,
        root_up(n) * root_up(n) >= n,
{
    lemma_root_exists(n);
    let low = root(n);
    if low * low == n {
        assert(low <= r) by (nonlinear_arith)
            requires
                low >= 0,
                r >= 0,
                low * low == n,
                r * r >= n,
        ;
    } else {
        assert(low + 1 <= r) by (nonlinear_arith)
            requires
                low >= 0,
                r >= 0,
                low * low < n,
                r * r >= n,
        ;
        assert((low + 1) * (low + 1) >= n);
    }
}

/// The cost of a straight way is not negative, and its square reaches the
/// squared length of the way.
pub proof fn lemma_way_cost(a: Point, b: Point)
    requires
        a.in_bounds(),
        b.in_bounds(),
    ensures
        0 <= way_cost(a, b) <= STEP_MAX,
        way_cost(a, b) * way_cost(a, b) >= dot(displacement(a, b), displacement(a, b)),
        a == b ==> way_cost(a, b) == 0,
{
    let way = displacement(a, b);
    let squared = dot(way, way);
    lemma_product_bound(way.x as int, way.x as int, 1_000_000, 1_000_000);
    lemma_product_bound(way.y as int, way.y as int, 1_000_000, 1_000_000);
    assert(way.x * way.x >= 0) by (nonlinear_arith);
    assert(way.y * way.y >= 0) by (nonlinear_arith);
    assert(1_500_000 * 1_500_000 >= squared);
    lemma_root_up_least(squared, 1_500_000);
    if a == b {
        assert(way.x == 0 && way.y == 0);
        assert(squared == 0) by (nonlinear_arith)
            requires
                squared == way.x * way.x + way.y * way.y,
                way.x == 0,
                way.y == 0,
        ;
        lemma_root_up_least(0, 0);
    }
}

/// The straight way is never longer than the way round by a third point.
pub proof fn lemma_triangle(a: Point, b: Point, c: Point)
    requires
        a.in_bounds(),
        b.in_bounds(),
        c.in_bounds(),
    ensures
        way_cost(a, c) <= way_cost(a, b) + way_cost(b, c),
{
    lemma_way_cost(a, b);
    lemma_way_cost(b, c);
    let u = displacement(a, b);
    let v = displacement(b, c);
    let w = displacement(a, c);
    let p = way_cost(a, b);
    let q = way_cost(b, c);
    let (ux, uy, vx, vy) = (u.x as int, u.y as int, v.x as int, v.y as int);
    assert(w.x == ux + vx && w.y == uy + vy);
    let uu = ux * ux + uy * uy;
    let vv = vx * vx + vy * vy;
    let uv = ux * vx + uy * vy;
    let side = ux * vy - uy * vx;
    let xx = ux * vx;
    let yy = uy * vy;
    let xy = ux * vy;
    let yx = uy * vx;
    assert((ux * ux) * (vx * vx) == xx * xx) by (nonlinear_arith)
        requires
            xx == ux * vx,
    ;
    assert((uy * uy) * (vy * vy) == yy * yy) by (nonlinear_arith)
        requires
            yy == uy * vy,
    ;
    assert((ux * ux) * (vy * vy) == xy * xy) by (nonlinear_arith)
        requires
            xy == ux * vy,
    ;
    assert((uy * uy) * (vx * vx) == yx * yx) by (nonlinear_arith)
        requires
            yx == uy * vx,
    ;
    assert(xx * yy == xy * yx) by (nonlinear_arith)
        requires
            xx == ux * vx,
            yy == uy * vy,
            xy == ux * vy,
            yx == uy * vx,
    ;
    assert(uu * vv == xx * xx + xy * xy + yx * yx + yy * yy) by (nonlinear_arith)
        requires
            uu == ux * ux + uy * uy,
            vv == vx * vx + vy * vy,
            (ux * ux) * (vx * vx) == xx * xx,
            (uy * uy) * (vy * vy) == yy * yy,
            (ux * ux) * (vy * vy) == xy * xy,
            (uy * uy) * (vx * vx) == yx * yx,
    ;
    assert(uv * uv == xx * xx + 2 * (xx * yy) + yy * yy) by (nonlinear_arith)
        requires
            uv == xx + yy,
    ;
    assert(side * side == xy * xy - 2 * (xy * yx) + yx * yx) by (nonlinear_arith)
        requires
            side == xy - yx,
    ;
    assert(uu * vv - uv * uv == side * side);
    assert(side * side >= 0) by (nonlinear_arith);
    assert(uu >= 0 && vv >= 0) by (nonlinear_arith)
        requires
            uu == ux * ux + uy * uy,
            vv == vx * vx + vy * vy,
    ;
    assert(uu * vv <= (p * p) * (q * q)) by (nonlinear_arith)
        requires
            0 <= uu <= p * p,
            0 <= vv <= q * q,
    ;
    assert((p * p) * (q * q) == (p * q) * (p * q)) by (nonlinear_arith);
    assert(uv <= p * q) by (nonlinear_arith)
        requires
            uv * uv <= (p * q) * (p * q),
            p >= 0,
            q >= 0,
    ;
    let ww = (ux + vx) * (ux + vx) + (uy + vy) * (uy + vy);
    assert(ww == uu + 2 * uv + vv) by (nonlinear_arith)
        requires
            ww == (ux + vx) * (ux + vx) + (uy + vy) * (uy + vy),
            uu == ux * ux + uy * uy,
            vv == vx * vx + vy * vy,
            uv == ux * vx + uy * vy,
    ;
    assert((p + q) * (p + q) == p * p + 2 * (p * q) + q * q) by (nonlinear_arith);
    assert(ww >= 0) by (nonlinear_arith)
        requires
            ww == (ux + vx) * (ux + vx) + (uy + vy) * (uy + vy),
    ;
    assert(dot(w, w) == ww);
    lemma_root_up_least(ww, p + q);
}

impl Graph {
    /// A step between two nodes costs between 0 and `STEP_MAX`, and nothing
    /// from a node to itself.
    pub proof fn lemma_step_cost(&self, a: int, b: int)
        requires
            self.wf(),
            0 <= a < self.nodes@.len(),
            0 <= b < self.nodes@.len(),
        ensures
            0 <= self.step_cost(a, b) <= STEP_MAX,
            self.step_cost(a, a) == 0,
    {
        lemma_way_cost(self.nodes@[a], self.nodes@[b]);
        lemma_way_cost(self.nodes@[a], self.nodes@[a]);
    }

    /// A route without its last node is a route.
    pub proof fn lemma_route_front(&self, route: Seq<int>)
        requires
            self.is_route(route),
            route.len() >= 2,
        ensures
            self.is_route(route.drop_last()),
    {
        let front = route.drop_last();
        assert forall|i: int| 0 <= i < front.len() - 1 implies #[trigger] self.linked(front, i) by {
            assert(self.linked(route, i));
        }
        assert forall|i: int| 0 <= i < front.len() implies 0 <= #[trigger] front[i]
            < self.nodes@.len() by {
            assert(front[i] == route[i]);
        }
    }

    /// A route with a node added that an edge joins to its last node is a
    /// route, and costs the step more.
    pub proof fn lemma_route_push(&self, route: Seq<int>, next: int)
        requires
            self.is_route(route),
            0 <= next < self.nodes@.len(),
            self.adjacent(route[route.len() - 1], next),
        ensures
            self.is_route(route.push(next)),
            self.route_cost(route.push(next)) == self.route_cost(route) + self.step_cost(
                route[route.len() - 1],
                next,
            ),
    {
        let longer = route.push(next);
        assert(longer.drop_last() =~= route);
        assert forall|i: int| 0 <= i < longer.len() - 1 implies #[trigger] self.linked(
            longer,
            i,
        ) by {
            if i < route.len() - 1 {
                assert(self.linked(route, i));
            }
        }
        assert forall|i: int| 0 <= i < longer.len() implies 0 <= #[trigger] longer[i]
            < self.nodes@.len() by {
            if i < route.len() {
                assert(longer[i] == route[i]);
            }
        }
    }

    /// A route costs at most `STEP_MAX` for each step, and never less than
    /// nothing.
    pub proof fn lemma_route_cost_bounds(&self, route: Seq<int>)
        requires
            self.wf(),
            self.is_route(route),
        ensures
            0 <= self.route_cost(route) <= (route.len() - 1) * STEP_MAX,
        decreases route.len(),
    {
        if route.len() >= 2 {
            self.lemma_route_front(route);
            self.lemma_route_cost_bounds(route.drop_last());
            assert(0 <= route[route.len() - 2] < self.nodes@.len());
            assert(0 <= route[route.len() - 1] < self.nodes@.len());
            self.lemma_step_cost(route[route.len() - 2], route[route.len() - 1]);
            assert((route.len() - 2) * STEP_MAX + STEP_MAX == (route.len() - 1) * STEP_MAX)
                by (nonlinear_arith);
        }
    }

    /// The first nodes of a route cost no more than the route; and the
    /// route costs at least what they cost and the straight way from the
    /// last of them to the end of the route.
    pub proof fn lemma_route_rest(&self, route: Seq<int>, last: int)
        requires
            self.wf(),
            self.is_route(route),
            0 <= last < route.len(),
        ensures
            self.route_cost(route.take(last + 1)) <= self.route_cost(route),
            self.route_cost(route.take(last + 1)) + self.step_cost(
                route[last],
                route[route.len() - 1],
            ) <= self.route_cost(route),
        decreases route.len(),
    {
        let end = route[route.len() - 1];
        assert(0 <= route[last] < self.nodes@.len());
        assert(0 <= end < self.nodes@.len());
        if last == route.len() - 1 {
            assert(route.take(last + 1) =~= route);
            self.lemma_step_cost(end, end);
        } else {
            let front = route.drop_last();
            let before = route[route.len() - 2];
            self.lemma_route_front(route);
            self.lemma_route_rest(front, last);
            assert(front.take(last + 1) =~= route.take(last + 1));
            assert(front[last] == route[last]);
            assert(front[front.len() - 1] == before);
            assert(0 <= before < self.nodes@.len());
            self.lemma_step_cost(before, end);
            self.lemma_step_cost(route[last], before);
            lemma_triangle(self.nodes@[route[last]], self.nodes@[before], self.nodes@[end]);
        }
    }

    /// A route that starts with a step to another route costs that step
    /// more than the other route.
    pub proof fn lemma_route_prepend(&self, first: int, rest: Seq<int>)
        requires
            self.is_route(rest),
            0 <= first < self.nodes@.len(),
            self.adjacent(first, rest[0]),
        ensures
            self.is_route(seq![first] + rest),
            self.route_cost(seq![first] + rest) == self.step_cost(first, rest[0])
                + self.route_cost(rest),
        decreases rest.len(),
    {
        let whole = seq![first] + rest;
        assert forall|i: int| 0 <= i < whole.len() - 1 implies #[trigger] self.linked(whole, i) by {
            if i > 0 {
                assert(self.linked(rest, i - 1));
                assert(whole[i] == rest[i - 1]);
                assert(whole[i + 1] == rest[i]);
            } else {
                assert(whole[1] == rest[0]);
            }
        }
        assert forall|i: int| 0 <= i < whole.len() implies 0 <= #[trigger] whole[i]
            < self.nodes@.len() by {
            if i > 0 {
                assert(whole[i] == rest[i - 1]);
            }
        }
        if rest.len() == 1 {
            assert(whole.drop_last() =~= seq![first]);
            assert(self.route_cost(seq![first]) == 0);
            assert(self.route_cost(rest) == 0);
            assert(whole[whole.len() - 2] == first);
            assert(whole[whole.len() - 1] == rest[0]);
        } else {
            self.lemma_route_front(rest);
            self.lemma_route_prepend(first, rest.drop_last());
            assert(whole.drop_last() =~= seq![first] + rest.drop_last());
            assert(whole[whole.len() - 2] == rest[rest.len() - 2]);
            assert(whole[whole.len() - 1] == rest[rest.len() - 1]);
            assert(rest.drop_last()[0] == rest[0]);
        }
    }

    /// A route that passes no node twice has no more nodes than the graph.
    pub proof fn lemma_route_length(&self, route: Seq<int>)
        requires
            self.is_route(route),
            route.no_duplicates(),
        ensures
            route.len() <= self.nodes@.len(),
    {
        let all = vstd::set_lib::set_int_range(0, self.nodes@.len() as int);
        vstd::set_lib::lemma_int_range(0, self.nodes@.len() as int);
        route.unique_seq_to_set();
        assert(route.to_set().subset_of(all)) by {
            assert forall|v: int| route.to_set().contains(v) implies all.contains(v) by {
                let at = choose|at: int| 0 <= at < route.len() && route[at] == v;
                assert(0 <= route[at] < self.nodes@.len());
            }
        }
        vstd::set_lib::lemma_len_subset(route.to_set(), all);
    }
}

} // verus!
