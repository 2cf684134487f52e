//! The decisions that move the ships: each takes plain values and returns
//! what is to be done.

use crate::approach::{distance_squared, squared_distance};
use crate::components::{Ai, StateQuery};
use crate::geometry::{Point, COMPONENT_MAX};
use crate::map::points_in_bounds;
use vstd::prelude::*;

verus! {

/// Moves each ship from state to state.
pub struct AiSystem;

/// Moves each ship along its course.
pub struct MoveShipsSystem;

/// Sends a patrolling ship to its next waypoint.
pub struct PatrolSystem;

/// Sends a chasing ship after the nearest other ship.
pub struct ChaseSystem;

/// Tells which things touch.
pub struct CollisionSystem;

/// A box with level and upright sides.
#[derive(Clone, Copy, Debug, PartialEq, Eq, Structural)]
pub struct Bounds {
    pub left: i64,
    pub right: i64,
    pub top: i64,
    pub bottom: i64,
}

/// Whether `query` holds of a ship whose nearest other ship is at the
/// squared distance `nearest`; `None` where there is no other ship.
pub open spec fn satisfied(query: StateQuery, nearest: Option<u64>) -> bool {
    match query {
        StateQuery::TargetNearby(d) => nearest matches Some(n) && n < d * d,
        StateQuery::TargetNotNearby(d) => !(nearest matches Some(n) && n < d * d),
    }
}

/// The state that the first of `transitions`, from the place `from` on,
/// leads to whose condition holds; `current` where none holds.
pub open spec fn chosen(
    transitions: Seq<(StateQuery, usize)>,
    nearest: Option<u64>,
    current: usize,
    from: int,
) -> usize
    decreases transitions.len() - from,
{
    if from < 0 || from >= transitions.len() {
        current
    } else if satisfied(transitions[from].0, nearest) {
        transitions[from].1
    } else {
        chosen(transitions, nearest, current, from + 1)
    }
}

/// Whether `at` is the first place among `points`, leaving out the place
/// `skip`, that is nearest to `target`.
pub open spec fn first_nearest(points: Seq<Point>, skip: int, target: Point, at: int) -> bool {
    &&& 0 <= at < points.len()
    &&& at != skip
    &&& forall|j: int|
        0 <= j < points.len() && j != skip ==> squared_distance(points[at], target)
            <= squared_distance(#[trigger] points[j], target)
    &&& forall|j: int|
        0 <= j < at && j != skip ==> squared_distance(points[at], target) < squared_distance(
            #[trigger] points[j],
            target,
        )
}

/// Whether `p` lies in `bounds`, its sides included.
pub open spec fn in_rect(p: Point, bounds: Bounds) -> bool {
    p.x >= bounds.left && p.x <= bounds.right && p.y <= bounds.top && p.y >= bounds.bottom
}

/// Whether `p` lies in `bounds`, its sides included.
pub fn point_in_rect(p: Point, bounds: Bounds) -> (inside: bool)
    ensures
        inside == in_rect(p, bounds),
{
    p.x >= bounds.left && p.x <= bounds.right && p.y <= bounds.top && p.y >= bounds.bottom
}

/// The first place among `points`, leaving out the place `skip`, that is
/// nearest to `target`.
pub fn nearest_index(points: &Vec<Point>, skip: Option<usize>, target: Point) -> (found: Option<
    usize,
>)
    requires
        points_in_bounds(points@),
        target.in_bounds(),
    ensures
        match found {
            Some(at) => first_nearest(
                points@,
                match skip {
                    Some(s) => s as int,
                    None => -1,
                },
                target,
                at as int,
            ),
            None => points@.len() == 0 || (points@.len() == 1 && skip == Some(0usize)),
        },
{
    let ghost left_out: int = match skip {
        Some(s) => s as int,
        None => -1,
    };
    let mut best: Option<usize> = None;
    let mut best_distance: i64 = 0;
    let mut index: usize = 0;
    while index < points.len()
        invariant
            points_in_bounds(points@),
            target.in_bounds(),
            left_out == match skip {
                Some(s) => s as int,
                None => -1,
            },
            0 <= index <= points@.len(),
            match best {
                Some(at) => {
                    &&& at < index
                    &&& at != left_out
                    &&& best_distance == squared_distance(points@[at as int], target)
                    &&& forall|j: int|
                        0 <= j < index && j != left_out ==> best_distance <= squared_distance(
                            #[trigger] points@[j],
                            target,
                        )
                    &&& forall|j: int|
                        0 <= j < at && j != left_out ==> best_distance < squared_distance(
                            #[trigger] points@[j],
                            target,
                        )
                },
                None => index == 0 || (index == 1 && skip == Some(0usize)),
            },
        decreases points@.len() - index,
    {
        let skipped = match skip {
            Some(s) => s == index,
            None => false,
        };
        if !skipped {
            let d = distance_squared(points[index], target);
            match best {
                None => {
                    best = Some(index);
                    best_distance = d;
                },
                Some(_) => {
                    if d < best_distance {
                        best = Some(index);
                        best_distance = d;
                    }
                },
            }
        }
        index += 1;
    }
    best
}

/// A square box round a point that lies at `origin` from the centre of a
/// thing.
#[derive(Clone, Copy, Debug, PartialEq, Eq, Structural)]
pub struct BoundingBox {
    pub width: i64,
    pub origin: Point,
}

/// Whether a corner of the box `a` lies in the box `b`.
pub open spec fn boxes_touch(a: Bounds, b: Bounds) -> bool {
    ||| in_rect(Point { x: a.left, y: a.top }, b)
    ||| in_rect(Point { x: a.right, y: a.top }, b)
    ||| in_rect(Point { x: a.right, y: a.bottom }, b)
    ||| in_rect(Point { x: a.left, y: a.bottom }, b)
}

/// The pairs of the box number `i` with those of the first `upto` boxes
/// that it touches, itself left out.
pub open spec fn touched_by(boxes: Seq<Bounds>, i: int, upto: nat) -> Seq<(usize, usize)>
    decreases upto,
{
    if upto == 0 {
        Seq::empty()
    } else {
        let before = touched_by(boxes, i, (upto - 1) as nat);
        let other = upto - 1;
        if other != i && boxes_touch(boxes[i], boxes[other]) {
            before.push((i as usize, other as usize))
        } else {
            before
        }
    }
}

/// The pairs of each of the first `rows` boxes with the boxes that it
/// touches.
pub open spec fn touching_pairs(boxes: Seq<Bounds>, rows: nat) -> Seq<(usize, usize)>
    decreases rows,
{
    if rows == 0 {
        Seq::empty()
    } else {
        touching_pairs(boxes, (rows - 1) as nat) + touched_by(boxes, rows - 1, boxes.len())
    }
}

/// Whether a patrol plots a new course: it has reached the waypoint it
/// was heading for, or it has no course, or it was not on patrol before.
pub open spec fn plots_anew(
    waypoints: Seq<Point>,
    next_waypoint_index: int,
    location: Point,
    previous_action_is_patrol: bool,
    has_course: bool,
    threshold: u32,
) -> bool {
    ||| squared_distance(location, waypoints[next_waypoint_index]) < threshold * threshold
    ||| !has_course
    ||| !previous_action_is_patrol
}

impl BoundingBox {
    /// The width is not negative, and the box lies within reach of the
    /// bounds.
    pub open spec fn wf(&self) -> bool {
        0 <= self.width <= COMPONENT_MAX && self.origin.in_bounds()
    }

    /// The sides of the box round the thing at `centre`; half its width
    /// is rounded down.
    pub open spec fn bounds_at(&self, centre: Point) -> Bounds {
        Bounds {
            left: (centre.x + self.origin.x - self.width / 2) as i64,
            right: (centre.x + self.origin.x + self.width / 2) as i64,
            top: (centre.y + self.origin.y + self.width / 2) as i64,
            bottom: (centre.y + self.origin.y - self.width / 2) as i64,
        }
    }

    /// The sides of the box round the thing at `centre`.
    pub fn as_boundaries(&self, centre: Point) -> (bounds: Bounds)
        requires
            self.wf(),
            centre.in_bounds(),
        ensures
            bounds == self.bounds_at(centre),
    {
        let half = self.width / 2;
        Bounds {
            left: centre.x + self.origin.x - half,
            right: centre.x + self.origin.x + half,
            top: centre.y + self.origin.y + half,
            bottom: centre.y + self.origin.y - half,
        }
    }

    /// The corners of the box round the thing at `centre`: top left, top
    /// right, bottom right, bottom left.
    pub fn as_2d_points(&self, centre: Point) -> (corners: (Point, Point, Point, Point))
        requires
            self.wf(),
            centre.in_bounds(),
        ensures
            corners.0 == (Point { x: self.bounds_at(centre).left, y: self.bounds_at(centre).top }),
            corners.1 == (Point { x: self.bounds_at(centre).right, y: self.bounds_at(centre).top }),
            corners.2 == (Point {
                x: self.bounds_at(centre).right,
                y: self.bounds_at(centre).bottom,
            }),
            corners.3 == (Point { x: self.bounds_at(centre).left, y: self.bounds_at(centre).bottom }),
    {
        let bounds = self.as_boundaries(centre);
        (
            Point { x: bounds.left, y: bounds.top },
            Point { x: bounds.right, y: bounds.top },
            Point { x: bounds.right, y: bounds.bottom },
            Point { x: bounds.left, y: bounds.bottom },
        )
    }
}

impl AiSystem {
    /// The state that a ship goes to from its current state.
    pub fn next_state(ai: &Ai, nearest: Option<u64>) -> (next: usize)
        requires
            ai.current_state_index < ai.states@.len(),
        ensures
            next == chosen(
                ai.states@[ai.current_state_index as int].transitions@,
                nearest,
                ai.current_state_index,
                0,
            ),
    {
        let current_state = ai.current_state();
        let mut index: usize = 0;
        while index < current_state.transitions.len()
            invariant
                ai.current_state_index < ai.states@.len(),
                *current_state == ai.states@[ai.current_state_index as int],
                0 <= index <= current_state.transitions@.len(),
                chosen(current_state.transitions@, nearest, ai.current_state_index, 0) == chosen(
                    current_state.transitions@,
                    nearest,
                    ai.current_state_index,
                    index as int,
                ),
            decreases current_state.transitions@.len() - index,
        {
            let (query, state) = current_state.transitions[index];
            let transition = match query {
                StateQuery::TargetNearby(d) => Self::target_nearby(nearest, d),
                StateQuery::TargetNotNearby(d) => !Self::target_nearby(nearest, d),
            };
            if transition {
                return state;
            }
            index += 1;
        }
        ai.current_state_index
    }

    /// The squared distance from the ship number `own` to the nearest of the
    /// other ships at `locations`; `None` where there is no other.
    pub fn nearest_distance(locations: &Vec<Point>, own: usize) -> (nearest: Option<u64>)
        requires
            own < locations@.len(),
            points_in_bounds(locations@),
        ensures
            nearest is None <==> locations@.len() == 1,
            nearest matches Some(d) ==> exists|at: int| #[trigger]
                first_nearest(locations@, own as int, locations@[own as int], at) && d
                    == squared_distance(locations@[at], locations@[own as int]),
    {
        match nearest_index(locations, Some(own), locations[own]) {
            Some(at) => {
                let d = distance_squared(locations[at], locations[own]);
                Some(d as u64)
            },
            None => None,
        }
    }

    /// Whether another ship is nearer than `distance`.
    pub fn target_nearby(nearest: Option<u64>, distance: u32) -> (nearby: bool)
        ensures
            nearby == (nearest matches Some(n) && n < distance * distance),
    {
        match nearest {
            Some(n) => {
                assert(distance * distance <= 0xffff_ffff * 0xffff_ffff) by (nonlinear_arith)
                    requires
                        0 <= distance <= 0xffff_ffff,
                ;
                n < (distance as u64) * (distance as u64)
            },
            None => false,
        }
    }

    /// Moves a ship to the state that follows from its surroundings.
    pub fn run(ai: &mut Ai, nearest: Option<u64>)
        requires
            old(ai).current_state_index < old(ai).states@.len(),
        ensures
            final(ai).states == old(ai).states,
            final(ai).previous_state_index == old(ai).current_state_index,
            final(ai).current_state_index == chosen(
                old(ai).states@[old(ai).current_state_index as int].transitions@,
                nearest,
                old(ai).current_state_index,
                0,
            ),
    {
        let next_state = Self::next_state(ai, nearest);
        ai.previous_state_index = ai.current_state_index;
        ai.current_state_index = next_state;
    }
}

impl MoveShipsSystem {
    /// Whether a ship at `location` is nearer to `waypoint` than
    /// `threshold`.
    pub fn has_reached(location: Point, waypoint: Point, threshold: u32) -> (reached: bool)
        requires
            location.in_bounds(),
            waypoint.in_bounds(),
        ensures
            reached == (squared_distance(location, waypoint) < threshold * threshold),
    {
        let d = distance_squared(location, waypoint);
        assert(threshold * threshold <= 0xffff_ffff * 0xffff_ffff) by (nonlinear_arith)
            requires
                0 <= threshold <= 0xffff_ffff,
        ;
        (d as u64) < (threshold as u64) * (threshold as u64)
    }

    /// The waypoint that a ship heads for next, of `waypoint_count`: the
    /// one it heads for, or, where it has `reached` that one, the one
    /// after it; none after the last.
    pub fn next_waypoint(
        next_waypoint_index: Option<usize>,
        waypoint_count: usize,
        reached: bool,
    ) -> (next: Option<usize>)
        requires
            next_waypoint_index matches Some(index) ==> index < waypoint_count,
        ensures
            next == match next_waypoint_index {
                None => None,
                Some(index) => if !reached {
                    Some(index)
                } else if index + 1 == waypoint_count {
                    None
                } else {
                    Some((index + 1) as usize)
                },
            },
    {
        match next_waypoint_index {
            None => None,
            Some(index) => {
                if reached {
                    let new_next_waypoint_index = index + 1;
                    if new_next_waypoint_index == waypoint_count {
                        None
                    } else {
                        Some(new_next_waypoint_index)
                    }
                } else {
                    Some(index)
                }
            },
        }
    }
}

impl PatrolSystem {
    /// The waypoint that a patrolling ship heads for next: the one after
    /// `next_waypoint_index`, round the patrol, where the ship was on
    /// patrol before; else the waypoint nearest to `location`.
    pub fn next_waypoint(
        waypoints: &Vec<Point>,
        next_waypoint_index: usize,
        location: Point,
        previous_action_is_patrol: bool,
    ) -> (next: usize)
        requires
            waypoints@.len() > 0,
            next_waypoint_index < waypoints@.len(),
            points_in_bounds(waypoints@),
            location.in_bounds(),
        ensures
            next < waypoints@.len(),
            previous_action_is_patrol ==> next == (next_waypoint_index + 1) % (
            waypoints@.len() as int),
            !previous_action_is_patrol ==> first_nearest(waypoints@, -1, location, next as int),
    {
        let count = waypoints.len();
        if previous_action_is_patrol {
            if next_waypoint_index + 1 == count {
                assert((next_waypoint_index + 1) % (waypoints@.len() as int) == 0) by (nonlinear_arith)
                    requires
                        next_waypoint_index + 1 == waypoints@.len(),
                        waypoints@.len() > 0,
                ;
                0
            } else {
                proof {
                    vstd::arithmetic::div_mod::lemma_small_mod(
                        (next_waypoint_index + 1) as nat,
                        waypoints@.len(),
                    );
                }
                next_waypoint_index + 1
            }
        } else {
            match nearest_index(waypoints, None, location) {
                Some(at) => at,
                None => 0,
            }
        }
    }
}

impl PatrolSystem {
    /// The waypoint that a patrol plots a new course to, if it plots one:
    /// see [`plots_anew`] and [`PatrolSystem::next_waypoint`].
    pub fn plan(
        waypoints: &Vec<Point>,
        next_waypoint_index: usize,
        location: Point,
        previous_action_is_patrol: bool,
        has_course: bool,
        threshold: u32,
    ) -> (plotted: Option<usize>)
        requires
            waypoints@.len() > 0,
            next_waypoint_index < waypoints@.len(),
            points_in_bounds(waypoints@),
            location.in_bounds(),
        ensures
            plotted is Some <==> plots_anew(
                waypoints@,
                next_waypoint_index as int,
                location,
                previous_action_is_patrol,
                has_course,
                threshold,
            ),
            plotted matches Some(next) ==> next < waypoints@.len(),
            plotted matches Some(next) ==> (previous_action_is_patrol ==> next == (
            next_waypoint_index + 1) % (waypoints@.len() as int)),
            plotted matches Some(next) ==> (!previous_action_is_patrol ==> first_nearest(
                waypoints@,
                -1,
                location,
                next as int,
            )),
    {
        let reached = MoveShipsSystem::has_reached(
            location,
            waypoints[next_waypoint_index],
            threshold,
        );
        if reached || !has_course || !previous_action_is_patrol {
            Some(
                Self::next_waypoint(
                    waypoints,
                    next_waypoint_index,
                    location,
                    previous_action_is_patrol,
                ),
            )
        } else {
            None
        }
    }
}

impl ChaseSystem {
    /// The ship to chase: of the ships at `locations`, the one nearest to
    /// the ship number `own`, that ship itself left out.
    pub fn closest_ship(locations: &Vec<Point>, own: usize) -> (closest: Option<usize>)
        requires
            own < locations@.len(),
            points_in_bounds(locations@),
        ensures
            match closest {
                Some(at) => first_nearest(locations@, own as int, locations@[own as int], at as int),
                None => locations@.len() == 1,
            },
    {
        nearest_index(locations, Some(own), locations[own])
    }
}

impl CollisionSystem {
    /// The collisions among the things with the boxes `boxes`: each pair
    /// of two different things of which the first touches the second, by
    /// their numbers.
    pub fn run(boxes: &Vec<Bounds>) -> (collisions: Vec<(usize, usize)>)
        ensures
            collisions@ == touching_pairs(boxes@, boxes@.len()),
    {
        let mut collisions: Vec<(usize, usize)> = Vec::new();
        let mut i: usize = 0;
        while i < boxes.len()
            invariant
                0 <= i <= boxes@.len(),
                collisions@ == touching_pairs(boxes@, i as nat),
            decreases boxes@.len() - i,
        {
            let ghost rows = collisions@;
            let mut j: usize = 0;
            while j < boxes.len()
                invariant
                    0 <= i < boxes@.len(),
                    0 <= j <= boxes@.len(),
                    collisions@ == rows + touched_by(boxes@, i as int, j as nat),
                decreases boxes@.len() - j,
            {
                if i != j && Self::bounding_boxes_intersect(boxes[i], boxes[j]) {
                    collisions.push((i, j));
                }
                assert(collisions@ =~= rows + touched_by(boxes@, i as int, (j + 1) as nat));
                j += 1;
            }
            i += 1;
        }
        collisions
    }

    /// Whether a corner of the box `bounds` lies in the box `other`.
    pub fn bounding_boxes_intersect(bounds: Bounds, other: Bounds) -> (touching: bool)
        ensures
            touching == boxes_touch(bounds, other),
    {
        point_in_rect(Point { x: bounds.left, y: bounds.top }, other) || point_in_rect(
            Point { x: bounds.right, y: bounds.top },
            other,
        ) || point_in_rect(Point { x: bounds.right, y: bounds.bottom }, other) || point_in_rect(
            Point { x: bounds.left, y: bounds.bottom },
            other,
        )
    }
}

} // verus!
