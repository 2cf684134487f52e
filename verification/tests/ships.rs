use age_of_sail::components::{Action, Ai, AiState, StateQuery};
use age_of_sail::geometry::Point;
use age_of_sail::systems::{
    AiSystem, BoundingBox, Bounds, ChaseSystem, CollisionSystem, MoveShipsSystem, PatrolSystem,
};

// One unit of the world is SCALE steps of the lattice.
const SCALE: i64 = 100;

// A ship is at a waypoint when it is nearer to it than this, in steps.
const DISTANCE_THRESHOLD: u32 = 15;

fn at(x: f64, y: f64) -> Point {
    Point::new((x * SCALE as f64).round() as i64, (y * SCALE as f64).round() as i64)
}

fn two_states(first: Vec<(StateQuery, usize)>, first_action: Action, second_action: Action) -> Ai {
    Ai {
        states: vec![
            AiState { transitions: first, action: first_action },
            AiState { transitions: vec![], action: second_action },
        ],
        current_state_index: 0,
        previous_state_index: 0,
    }
}

fn boxes_at(centres: &[(f64, f64)]) -> Vec<Bounds> {
    let bounding_box = BoundingBox { width: 5 * SCALE, origin: Point::new(0, 0) };
    centres.iter().map(|&(x, y)| bounding_box.as_boundaries(at(x, y))).collect()
}

#[test]
fn ai_transitions_to_correct_state_when_target_nearby() {
    const ORIGINAL_STATE_INDEX: usize = 0;
    const NEXT_STATE_INDEX: usize = 1;

    let locations = vec![Point::new(5, 5), Point::new(2, 0)];
    let mut ai = two_states(
        vec![(StateQuery::TargetNearby(10), NEXT_STATE_INDEX)],
        Action::Patrol,
        Action::Chase,
    );
    ai.current_state_index = ORIGINAL_STATE_INDEX;

    AiSystem::run(&mut ai, AiSystem::nearest_distance(&locations, 1));

    assert_eq!(NEXT_STATE_INDEX, ai.current_state_index);
}

#[test]
fn ai_transitions_to_correct_state_when_no_target_nearby() {
    const ORIGINAL_STATE_INDEX: usize = 0;
    const NEXT_STATE_INDEX: usize = 1;

    let locations = vec![Point::new(100, 5), Point::new(2, 0)];
    let mut ai = two_states(
        vec![(StateQuery::TargetNotNearby(10), NEXT_STATE_INDEX)],
        Action::Chase,
        Action::Patrol,
    );
    ai.current_state_index = ORIGINAL_STATE_INDEX;

    AiSystem::run(&mut ai, AiSystem::nearest_distance(&locations, 1));

    assert_eq!(NEXT_STATE_INDEX, ai.current_state_index);
}

#[test]
fn ai_does_not_transition_if_no_state_queries_are_satisfied() {
    const ORIGINAL_STATE_INDEX: usize = 0;

    let locations = vec![Point::new(100, 5), Point::new(2, 0)];
    let mut ai =
        two_states(vec![(StateQuery::TargetNearby(10), 1)], Action::Patrol, Action::Chase);
    ai.current_state_index = ORIGINAL_STATE_INDEX;

    AiSystem::run(&mut ai, AiSystem::nearest_distance(&locations, 1));

    assert_eq!(ORIGINAL_STATE_INDEX, ai.current_state_index);
}

#[test]
fn nearest_distance_is_squared_and_leaves_the_ship_itself_out() {
    let locations = vec![Point::new(5, 5), Point::new(2, 0), Point::new(2, 1)];
    assert_eq!(Some(25), AiSystem::nearest_distance(&locations, 0));
    assert_eq!(Some(1), AiSystem::nearest_distance(&locations, 1));
    assert_eq!(None, AiSystem::nearest_distance(&vec![Point::new(2, 0)], 0));
}

fn next_waypoint_of(waypoints: &[Point], current: usize, ship: Point) -> Option<usize> {
    let reached = MoveShipsSystem::has_reached(ship, waypoints[current], DISTANCE_THRESHOLD);
    MoveShipsSystem::next_waypoint(Some(current), waypoints.len(), reached)
}

#[test]
fn moves_ships_chooses_next_waypoint_if_close_enough_to_current_one() {
    const CURRENT_WAYPOINT_INDEX: usize = 1;
    let waypoints = vec![at(2.0, 3.0), at(0.00001, 0.0002), at(20.0, -5.0)];

    let next = next_waypoint_of(&waypoints, CURRENT_WAYPOINT_INDEX, at(0.0, 0.0));

    assert_eq!(Some(CURRENT_WAYPOINT_INDEX + 1), next, "Next waypoint index");
}

#[test]
fn moves_ships_keeps_current_waypoint_if_not_close_enough_to_current_one() {
    const CURRENT_WAYPOINT_INDEX: usize = 1;
    let waypoints = vec![at(2.0, 3.0), at(10.0, 20.0), at(20.0, -5.0)];

    let next = next_waypoint_of(&waypoints, CURRENT_WAYPOINT_INDEX, at(0.0, 0.0));

    assert_eq!(Some(CURRENT_WAYPOINT_INDEX), next, "Next waypoint index");
}

#[test]
fn moves_ships_next_waypoint_none_if_reached_final_waypoint() {
    const CURRENT_WAYPOINT_INDEX: usize = 2;
    let waypoints = vec![at(2.0, 3.0), at(20.0, -5.0), at(0.00001, 0.0002)];

    let next = next_waypoint_of(&waypoints, CURRENT_WAYPOINT_INDEX, at(0.0, 0.0));

    assert_eq!(None, next, "Next waypoint index");
}

#[test]
fn has_reached_is_strictly_within_the_threshold() {
    assert!(MoveShipsSystem::has_reached(at(0.0, 0.0), at(0.14, 0.0), DISTANCE_THRESHOLD));
    assert!(!MoveShipsSystem::has_reached(at(0.0, 0.0), at(0.15, 0.0), DISTANCE_THRESHOLD));
    assert!(MoveShipsSystem::has_reached(at(0.0, 0.0), at(0.09, 0.11), DISTANCE_THRESHOLD));
    assert!(!MoveShipsSystem::has_reached(at(0.0, 0.0), at(0.09, 0.12), DISTANCE_THRESHOLD));
    assert!(!MoveShipsSystem::has_reached(at(1.0, 1.0), at(1.0, 1.0), 0));
}

#[test]
fn ai_chooses_nearest_waypoint_if_previously_was_not_patrolling() {
    let target_location = at(1.0, 5.0);
    let waypoints = vec![target_location, at(-10.0, -20.0), at(20.0, -5.0)];

    let plotted =
        PatrolSystem::plan(&waypoints, 1, at(0.0, 0.0), false, false, DISTANCE_THRESHOLD);

    assert_eq!(Some(0), plotted);
    assert_eq!(target_location, waypoints[plotted.unwrap()], "Waypoint location");
}

#[test]
fn ai_plots_a_course_to_next_waypoint_if_close_enough_to_current_one() {
    let target_location = at(20.0, -5.0);
    let waypoints = vec![at(10.0, 5.0), at(0.0001, 0.0002), target_location];

    let plotted = PatrolSystem::plan(&waypoints, 1, at(0.0, 0.0), true, true, DISTANCE_THRESHOLD);

    assert_eq!(Some(2), plotted);
    assert_eq!(target_location, waypoints[plotted.unwrap()], "Waypoint location");
}

#[test]
fn ai_does_not_plot_a_course_to_next_waypoint_if_not_close_enough_to_current() {
    let current_waypoint = at(1.0, 2.0);
    let waypoints = vec![at(10.0, 5.0), current_waypoint, at(20.0, 3.0)];

    let plotted = PatrolSystem::plan(&waypoints, 1, at(0.0, 0.0), true, true, DISTANCE_THRESHOLD);

    assert_eq!(None, plotted);
}

#[test]
fn patrol_without_a_course_plots_one() {
    let waypoints = vec![at(10.0, 5.0), at(1.0, 2.0), at(20.0, 3.0)];
    let plotted = PatrolSystem::plan(&waypoints, 2, at(0.0, 0.0), true, false, DISTANCE_THRESHOLD);
    assert_eq!(Some(0), plotted);
}

#[test]
fn ai_chases_nearest_ship() {
    let target_location = at(2.0, 1.0);
    let locations = vec![at(0.0, 0.0), target_location, at(6.0, 5.0)];

    let chased = ChaseSystem::closest_ship(&locations, 0);

    assert_eq!(Some(1), chased);
    assert_eq!(target_location, locations[chased.unwrap()], "Waypoint location");
}

#[test]
fn ai_does_not_chase_itself() {
    let locations = vec![at(0.0, 0.0)];

    assert_eq!(None, ChaseSystem::closest_ship(&locations, 0), "Ai course does not exist");
}

#[test]
fn collision_events_not_sent_for_entities_colliding_with_themselves() {
    let collisions = CollisionSystem::run(&boxes_at(&[(0.0, 0.0)]));
    assert_eq!(0, collisions.len());
}

#[test]
fn collision_events_not_sent_for_entities_that_do_not_collide() {
    let collisions = CollisionSystem::run(&boxes_at(&[(0.0, 0.0), (20.0, 0.0)]));
    assert_eq!(0, collisions.len());
}

#[test]
fn two_collision_events_sent_for_each_pair_of_collisions() {
    let collisions = CollisionSystem::run(&boxes_at(&[(0.0, 0.0), (2.0, 2.0)]));
    assert_eq!(2, collisions.len());
    assert_eq!(vec![(0, 1), (1, 0)], collisions);
}

#[test]
fn more_than_two_entities_can_collide_at_a_time() {
    let collisions = CollisionSystem::run(&boxes_at(&[(0.0, 0.0), (2.0, 2.0), (3.0, 1.0)]));
    assert_eq!(6, collisions.len());
}

#[test]
fn bounding_box_lies_round_its_origin() {
    let bounding_box = BoundingBox { width: 8, origin: Point::new(1, -1) };
    assert_eq!(
        Bounds { left: 7, right: 15, top: 23, bottom: 15 },
        bounding_box.as_boundaries(Point::new(10, 20))
    );
    assert_eq!(
        (Point::new(7, 23), Point::new(15, 23), Point::new(15, 15), Point::new(7, 15)),
        bounding_box.as_2d_points(Point::new(10, 20))
    );
    // Half of an odd width is rounded down.
    let odd = BoundingBox { width: 5, origin: Point::new(0, 0) };
    assert_eq!(Bounds { left: -2, right: 2, top: 2, bottom: -2 }, odd.as_boundaries(Point::new(0, 0)));
}
