//! The point of the coast nearest to a position, and the corner by which to
//! get round the coast.

use crate::geometry::{clamped, cross, cross_2d, displacement, div_round, dot, dot_2d, lemma_product_bound, round_div, scaled_unit, translate, unit_vector, Point, Vector, COORDINATE_MAX};
use crate::map::{clamp_wide, edges_in_bounds, position_of, Edge, WorldMap};
use crate::sight::{lemma_point_on_edge, nearest_crossing, nearest_hit};
use vstd::prelude::*;

verus! {

/// The point of a piece of coast that is nearest to a position.
#[derive(Clone, Copy, Debug, PartialEq, Eq, Structural)]
pub struct Approach {
    /// The nearest point of the edge, rounded to the lattice.
    pub foot: Point,
    /// The squared distance from the position to the edge is `num / den`.
    pub num: i128,
    pub den: i64,
    /// The direction of the edge.
    pub along: Vector,
}

/// A corner of the coast, with the far ends of two pieces of coast that
/// meet in it.
#[derive(Clone, Copy, Debug, PartialEq, Eq, Structural)]
pub struct Turn {
    pub corner: Point,
    pub first_far: Point,
    pub second_far: Point,
}

/// The point of `edge` nearest to `p`. An edge of length zero has none.
pub open spec fn approach(edge: Edge, p: Point) -> Option<Approach> {
    let along = displacement(edge.0, edge.1);
    let length = dot(along, along);
    let to_point = displacement(edge.0, p);
    let reach = dot(to_point, along);
    if length == 0 {
        None
    } else if reach <= 0 {
        Some(Approach { foot: edge.0, num: dot(to_point, to_point) as i128, den: 1, along })
    } else if reach >= length {
        let from_end = displacement(edge.1, p);
        Some(Approach { foot: edge.1, num: dot(from_end, from_end) as i128, den: 1, along })
    } else {
        Some(
            Approach {
                foot: Point {
                    x: round_div(edge.0.x * length + reach * along.x, length) as i64,
                    y: round_div(edge.0.y * length + reach * along.y, length) as i64,
                },
                num: (cross(to_point, along) * cross(to_point, along)) as i128,
                den: length as i64,
                along,
            },
        )
    }
}

/// Whether `a` is nearer to the position than `b`.
pub open spec fn closer(a: Approach, b: Approach) -> bool {
    a.num * b.den < b.num * a.den
}

/// The point of `edges` nearest to `p`; of several at the same distance,
/// the one on the earliest edge.
pub open spec fn nearest_approach(edges: Seq<Edge>, p: Point) -> Option<Approach>
    decreases edges.len(),
{
    if edges.len() == 0 {
        None
    } else {
        let before = nearest_approach(edges.drop_last(), p);
        match approach(edges.last(), p) {
            None => before,
            Some(found) => match before {
                None => Some(found),
                Some(best) => if closer(found, best) {
                    Some(found)
                } else {
                    Some(best)
                },
            },
        }
    }
}

/// The vector of length `margin` at a right angle to `along`, to its left.
pub open spec fn normal(along: Vector, margin: int) -> Vector {
    scaled_unit(Vector { x: (-along.y) as i64, y: along.x }, margin)
}

/// `v` turned round.
pub open spec fn reversed(v: Vector) -> Vector {
    Vector { x: (-v.x) as i64, y: (-v.y) as i64 }
}

/// The squared distance between two points.
pub open spec fn squared_distance(a: Point, b: Point) -> int {
    dot(displacement(a, b), displacement(a, b))
}

/// The corner in which `edge` and `other` meet, if they are two different
/// edges with a common end.
pub open spec fn turn_between(edge: Edge, other: Edge) -> Option<Turn> {
    if edge == other {
        None
    } else if edge.0 == other.0 {
        Some(Turn { corner: edge.0, first_far: edge.1, second_far: other.1 })
    } else if edge.0 == other.1 {
        Some(Turn { corner: edge.0, first_far: edge.1, second_far: other.0 })
    } else if edge.1 == other.0 {
        Some(Turn { corner: edge.1, first_far: edge.0, second_far: other.1 })
    } else if edge.1 == other.1 {
        Some(Turn { corner: edge.1, first_far: edge.0, second_far: other.0 })
    } else {
        None
    }
}

/// `best`, or `candidate` if its corner was not visited and is nearer to
/// `target` than that of `best`.
pub open spec fn better_turn(
    best: Option<Turn>,
    candidate: Option<Turn>,
    visited: Seq<Point>,
    target: Point,
) -> Option<Turn> {
    match candidate {
        None => best,
        Some(turn) => if visited.contains(turn.corner) {
            best
        } else {
            match best {
                None => Some(turn),
                Some(held) => if squared_distance(turn.corner, target) < squared_distance(
                    held.corner,
                    target,
                ) {
                    Some(turn)
                } else {
                    Some(held)
                },
            }
        },
    }
}

/// The best turn among `start` and the meetings of the edge number `i`
/// with the first `upto` edges.
pub open spec fn best_turn_row(
    coast: Seq<Edge>,
    visited: Seq<Point>,
    target: Point,
    i: int,
    upto: nat,
    start: Option<Turn>,
) -> Option<Turn>
    decreases upto,
{
    if upto == 0 {
        start
    } else {
        better_turn(
            best_turn_row(coast, visited, target, i, (upto - 1) as nat, start),
            turn_between(coast[i], coast[upto - 1]),
            visited,
            target,
        )
    }
}

/// The corner, not among `visited`, in which two edges of `coast` meet and
/// which is nearest to `target`, taking the first `rows` edges as the first
/// of the two; of several at the same distance, the earliest.
pub open spec fn best_turn(coast: Seq<Edge>, visited: Seq<Point>, target: Point, rows: nat) -> Option<
    Turn,
>
    decreases rows,
{
    if rows == 0 {
        None
    } else {
        best_turn_row(
            coast,
            visited,
            target,
            rows - 1,
            coast.len(),
            best_turn(coast, visited, target, (rows - 1) as nat),
        )
    }
}

/// The corner of `turn`, moved by `margin` away from each of the two far
/// ends, and held within bounds.
pub open spec fn pushed_turn(turn: Turn, margin: int) -> Point {
    let first = scaled_unit(displacement(turn.first_far, turn.corner), margin);
    let second = scaled_unit(displacement(turn.second_far, turn.corner), margin);
    Point {
        x: clamped(turn.corner.x + first.x + second.x) as i64,
        y: clamped(turn.corner.y + first.y + second.y) as i64,
    }
}

/// The point of `edge` nearest to `p`.
pub fn approach_edge(edge: Edge, p: Point) -> (near: Option<Approach>)
    requires
        edge.0.in_bounds(),
        edge.1.in_bounds(),
        p.in_bounds(),
    ensures
        near == approach(edge, p),
        near matches Some(found) ==> found.foot.in_bounds() && 0 < found.den <= 2_000_000_000_000
            && 0 <= found.num <= 4_000_000_000_000_000_000_000_000 && found.along.in_bounds(),
{
    let along = edge.1.minus(&edge.0);
    let length = dot_2d(along, along);
    let to_point = p.minus(&edge.0);
    let reach = dot_2d(to_point, along);
    proof {
        assert(along.x * along.x >= 0) by (nonlinear_arith);
        assert(along.y * along.y >= 0) by (nonlinear_arith);
    }
    if length == 0 {
        None
    } else if reach <= 0 {
        proof {
            assert(to_point.x * to_point.x >= 0) by (nonlinear_arith);
            assert(to_point.y * to_point.y >= 0) by (nonlinear_arith);
        }
        Some(Approach { foot: edge.0, num: dot_2d(to_point, to_point) as i128, den: 1, along })
    } else if reach >= length {
        let from_end = p.minus(&edge.1);
        proof {
            assert(from_end.x * from_end.x >= 0) by (nonlinear_arith);
            assert(from_end.y * from_end.y >= 0) by (nonlinear_arith);
        }
        Some(Approach { foot: edge.1, num: dot_2d(from_end, from_end) as i128, den: 1, along })
    } else {
        let side = cross_2d(to_point, along);
        proof {
            lemma_point_on_edge(edge.0.x as int, along.x as int, length as int, reach as int);
            lemma_point_on_edge(edge.0.y as int, along.y as int, length as int, reach as int);
            lemma_product_bound(
                edge.0.x as int,
                length as int,
                COORDINATE_MAX as int,
                2_000_000_000_000,
            );
            lemma_product_bound(
                edge.0.y as int,
                length as int,
                COORDINATE_MAX as int,
                2_000_000_000_000,
            );
            lemma_product_bound(reach as int, along.x as int, 2_000_000_000_000, 1_000_000);
            lemma_product_bound(reach as int, along.y as int, 2_000_000_000_000, 1_000_000);
            lemma_product_bound(side as int, side as int, 2_000_000_000_000, 2_000_000_000_000);
            assert(side * side >= 0) by (nonlinear_arith);
        }
        let x = div_round(
            (edge.0.x as i128) * (length as i128) + (reach as i128) * (along.x as i128),
            length as i128,
        );
        let y = div_round(
            (edge.0.y as i128) * (length as i128) + (reach as i128) * (along.y as i128),
            length as i128,
        );
        Some(
            Approach {
                foot: Point { x: x as i64, y: y as i64 },
                num: (side as i128) * (side as i128),
                den: length,
                along,
            },
        )
    }
}

/// Whether `a` is nearer to the position than `b`.
pub fn is_closer(a: &Approach, b: &Approach) -> (nearer: bool)
    requires
        0 < a.den <= 2_000_000_000_000,
        0 < b.den <= 2_000_000_000_000,
        0 <= a.num <= 4_000_000_000_000_000_000_000_000,
        0 <= b.num <= 4_000_000_000_000_000_000_000_000,
    ensures
        nearer == closer(*a, *b),
{
    proof {
        lemma_product_bound(
            a.num as int,
            b.den as int,
            4_000_000_000_000_000_000_000_000,
            2_000_000_000_000,
        );
        lemma_product_bound(
            b.num as int,
            a.den as int,
            4_000_000_000_000_000_000_000_000,
            2_000_000_000_000,
        );
    }
    a.num * (b.den as i128) < b.num * (a.den as i128)
}

/// The point of `edges` nearest to `p`.
pub fn nearest_on(edges: &Vec<Edge>, p: Point) -> (near: Option<Approach>)
    requires
        edges_in_bounds(edges@),
        p.in_bounds(),
    ensures
        near == nearest_approach(edges@, p),
        near matches Some(found) ==> found.foot.in_bounds() && found.along.in_bounds(),
{
    let mut best: Option<Approach> = None;
    let mut k: usize = 0;
    while k < edges.len()
        invariant
            edges_in_bounds(edges@),
            p.in_bounds(),
            0 <= k <= edges@.len(),
            best == nearest_approach(edges@.take(k as int), p),
            best matches Some(found) ==> found.foot.in_bounds() && 0 < found.den
                <= 2_000_000_000_000 && 0 <= found.num <= 4_000_000_000_000_000_000_000_000
                && found.along.in_bounds(),
        decreases edges@.len() - k,
    {
        proof {
            let next = edges@.take(k as int + 1);
            assert(next.drop_last() =~= edges@.take(k as int));
            assert(next.last() == edges@[k as int]);
        }
        match approach_edge(edges[k], p) {
            None => {},
            Some(found) => {
                match best {
                    None => {
                        best = Some(found);
                    },
                    Some(current) => {
                        if is_closer(&found, &current) {
                            best = Some(found);
                        }
                    },
                }
            },
        }
        k += 1;
    }
    assert(edges@.take(edges@.len() as int) =~= edges@);
    best
}

/// The squared distance between two points.
pub fn distance_squared(a: Point, b: Point) -> (d: i64)
    requires
        a.in_bounds(),
        b.in_bounds(),
    ensures
        d == squared_distance(a, b),
        0 <= d <= 2_000_000_000_000,
{
    let way = b.minus(&a);
    proof {
        assert(way.x * way.x >= 0) by (nonlinear_arith);
        assert(way.y * way.y >= 0) by (nonlinear_arith);
    }
    dot_2d(way, way)
}

/// The corner in which `edge` and `other` meet.
pub fn find_turn(edge: Edge, other: Edge) -> (turn: Option<Turn>)
    ensures
        turn == turn_between(edge, other),
{
    if edge.0 == other.0 && edge.1 == other.1 {
        None
    } else if edge.0 == other.0 {
        Some(Turn { corner: edge.0, first_far: edge.1, second_far: other.1 })
    } else if edge.0 == other.1 {
        Some(Turn { corner: edge.0, first_far: edge.1, second_far: other.0 })
    } else if edge.1 == other.0 {
        Some(Turn { corner: edge.1, first_far: edge.0, second_far: other.1 })
    } else if edge.1 == other.1 {
        Some(Turn { corner: edge.1, first_far: edge.0, second_far: other.0 })
    } else {
        None
    }
}

/// Whether the three points of a turn are in bounds.
pub open spec fn turn_in_bounds(turn: Turn) -> bool {
    turn.corner.in_bounds() && turn.first_far.in_bounds() && turn.second_far.in_bounds()
}

/// The corner, not among `visited`, in which two edges of `coast` meet and
/// which is nearest to `target`.
pub fn nearest_turn(coast: &Vec<Edge>, visited: &Vec<Point>, target: Point) -> (best: Option<Turn>)
    requires
        edges_in_bounds(coast@),
        target.in_bounds(),
    ensures
        best == best_turn(coast@, visited@, target, coast@.len()),
        best matches Some(turn) ==> turn_in_bounds(turn),
{
    let mut best: Option<Turn> = None;
    let mut i: usize = 0;
    while i < coast.len()
        invariant
            edges_in_bounds(coast@),
            target.in_bounds(),
            0 <= i <= coast@.len(),
            best == best_turn(coast@, visited@, target, i as nat),
            best matches Some(turn) ==> turn_in_bounds(turn),
        decreases coast@.len() - i,
    {
        let ghost start = best;
        let mut j: usize = 0;
        while j < coast.len()
            invariant
                edges_in_bounds(coast@),
                target.in_bounds(),
                0 <= i < coast@.len(),
                0 <= j <= coast@.len(),
                best == best_turn_row(coast@, visited@, target, i as int, j as nat, start),
                best matches Some(turn) ==> turn_in_bounds(turn),
            decreases coast@.len() - j,
        {
            match find_turn(coast[i], coast[j]) {
                None => {},
                Some(turn) => {
                    if position_of(visited, turn.corner).is_none() {
                        match best {
                            None => {
                                best = Some(turn);
                            },
                            Some(held) => {
                                if distance_squared(turn.corner, target) < distance_squared(
                                    held.corner,
                                    target,
                                ) {
                                    best = Some(turn);
                                }
                            },
                        }
                    }
                },
            }
            j += 1;
        }
        i += 1;
    }
    best
}

impl WorldMap {
    /// The point from which the point `near.foot` of the coast is reached
    /// from open water: `near.foot` moved by the margin to the left of the
    /// edge, or, if that is on land, to its right.
    pub open spec fn kept_off(&self, near: Approach) -> Point {
        let nudge = normal(near.along, self.margin as int);
        if !self.covers(translate(near.foot, nudge)) {
            translate(near.foot, nudge)
        } else {
            translate(near.foot, reversed(nudge))
        }
    }

    /// The point of the coast nearest to `point`, moved off the coast by the
    /// margin; the origin where the map has no coast.
    pub open spec fn nearest_off_coast(&self, point: Point) -> Point {
        match nearest_approach(self.coast(), point) {
            None => Point { x: 0, y: 0 },
            Some(near) => self.kept_off(near),
        }
    }

    /// The point of the coast that is nearest to `point`, moved off the
    /// coast by the margin, to the side that is not on land if there is one.
    pub fn closest_point_on_edge(&self, point: Point) -> (closest: Point)
        requires
            self.wf(),
            point.in_bounds(),
        ensures
            closest == self.nearest_off_coast(point),
            closest.in_bounds(),
            nearest_approach(self.coast(), point) matches Some(near) ==> (self.covers(closest)
                ==> self.covers(translate(near.foot, normal(near.along, self.margin as int)))
                && self.covers(
                translate(near.foot, reversed(normal(near.along, self.margin as int))),
            )),
    {
        let outer_edges = self.outer_edges();
        match nearest_on(&outer_edges, point) {
            None => Point { x: 0, y: 0 },
            Some(near) => {
                let perpendicular_direction = unit_vector(
                    Vector { x: -near.along.y, y: near.along.x },
                    self.margin,
                );
                let adjusted = near.foot.moved_by(&perpendicular_direction);
                if self.on_land(adjusted) {
                    let back = Vector {
                        x: -perpendicular_direction.x,
                        y: -perpendicular_direction.y,
                    };
                    near.foot.moved_by(&back)
                } else {
                    adjusted
                }
            },
        }
    }

    /// The corner by which to get round the coast that the line from
    /// `starting_point` along `line_direction` meets: of the corners in
    /// which two pieces of coast meet and which are not among
    /// `corners_visited`, the one nearest to the meeting point. Returned are
    /// the corner moved off the coast by the margin, and the corner itself.
    pub fn closest_corner_to_line(
        &self,
        starting_point: Point,
        line_direction: Vector,
        corners_visited: &Vec<Point>,
    ) -> (found: Option<(Point, Point)>)
        requires
            self.wf(),
            starting_point.in_bounds(),
            line_direction.in_bounds(),
        ensures
            found == match nearest_crossing(
                self.coast(),
                starting_point,
                line_direction,
                false,
            ) {
                None => None,
                Some(meeting) => match best_turn(
                    self.coast(),
                    corners_visited@,
                    meeting.point,
                    self.coast().len(),
                ) {
                    None => None,
                    Some(turn) => Some((pushed_turn(turn, self.margin as int), turn.corner)),
                },
            },
            found matches Some(pair) ==> pair.0.in_bounds() && pair.1.in_bounds(),
    {
        let outer_edges = self.outer_edges();
        match nearest_hit(&outer_edges, starting_point, line_direction, false) {
            None => None,
            Some(meeting) => {
                match nearest_turn(&outer_edges, corners_visited, meeting.point) {
                    None => None,
                    Some(turn) => {
                        let edge_direction = unit_vector(
                            turn.corner.minus(&turn.first_far),
                            self.margin,
                        );
                        let other_edge_direction = unit_vector(
                            turn.corner.minus(&turn.second_far),
                            self.margin,
                        );
                        let x = clamp_wide(
                            turn.corner.x as i128 + edge_direction.x as i128
                                + other_edge_direction.x as i128,
                        );
                        let y = clamp_wide(
                            turn.corner.y as i128 + edge_direction.y as i128
                                + other_edge_direction.y as i128,
                        );
                        Some((Point { x, y }, turn.corner))
                    },
                }
            },
        }
    }
}

} // verus!
