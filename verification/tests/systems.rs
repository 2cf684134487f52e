use age_of_sail::components::{Action, Ai, AiState, ItemType, StateQuery};
use age_of_sail::geometry::Point;
use age_of_sail::systems::{
    nearest_index, point_in_rect, AiSystem, Bounds, ChaseSystem, CollisionSystem,
    MoveShipsSystem, PatrolSystem,
};

fn patrol_and_chase() -> Ai {
    Ai {
        states: vec![
            AiState { transitions: vec![(StateQuery::TargetNearby(10), 1)], action: Action::Patrol },
            AiState {
                transitions: vec![(StateQuery::TargetNotNearby(10), 0)],
                action: Action::Chase,
            },
        ],
        current_state_index: 0,
        previous_state_index: 0,
    }
}

#[test]
fn ai_goes_to_the_state_of_the_transition_that_holds() {
    let mut ai = patrol_and_chase();
    AiSystem::run(&mut ai, Some(99));
    assert_eq!(1, ai.current_state_index);
    assert_eq!(0, ai.previous_state_index);
    assert!(ai.current_state().action == Action::Chase);
    assert!(ai.previous_state().action == Action::Patrol);
    AiSystem::run(&mut ai, Some(100));
    assert_eq!(0, ai.current_state_index);
    assert_eq!(1, ai.previous_state_index);
}

#[test]
fn ai_stays_where_no_transition_holds() {
    let mut ai = patrol_and_chase();
    AiSystem::run(&mut ai, Some(100));
    assert_eq!(0, ai.current_state_index);
    AiSystem::run(&mut ai, None);
    assert_eq!(0, ai.current_state_index);
    assert_eq!(0, ai.previous_state_index);
}

#[test]
fn ai_takes_the_first_transition_that_holds() {
    let ai = Ai {
        states: vec![AiState {
            transitions: vec![
                (StateQuery::TargetNearby(1), 5),
                (StateQuery::TargetNotNearby(3), 6),
                (StateQuery::TargetNearby(100), 7),
            ],
            action: Action::Patrol,
        }],
        current_state_index: 0,
        previous_state_index: 0,
    };
    assert_eq!(7, AiSystem::next_state(&ai, Some(4)));
    assert_eq!(6, AiSystem::next_state(&ai, Some(9)));
    assert_eq!(5, AiSystem::next_state(&ai, Some(0)));
    assert_eq!(6, AiSystem::next_state(&ai, None));
}

#[test]
fn target_nearby_compares_squared_distances() {
    assert!(AiSystem::target_nearby(Some(99), 10));
    assert!(!AiSystem::target_nearby(Some(100), 10));
    assert!(!AiSystem::target_nearby(None, 10));
    assert!(!AiSystem::target_nearby(Some(0), 0));
    assert!(AiSystem::target_nearby(Some(u64::MAX / 2), u32::MAX));
}

#[test]
fn move_ships_heads_for_the_next_waypoint_once_it_reached_one() {
    assert_eq!(Some(1), MoveShipsSystem::next_waypoint(Some(0), 2, true));
    assert_eq!(Some(0), MoveShipsSystem::next_waypoint(Some(0), 2, false));
    assert_eq!(None, MoveShipsSystem::next_waypoint(Some(1), 2, true));
    assert_eq!(Some(1), MoveShipsSystem::next_waypoint(Some(1), 2, false));
    assert_eq!(None, MoveShipsSystem::next_waypoint(None, 2, true));
}

#[test]
fn patrol_goes_round_its_waypoints() {
    let waypoints = vec![Point::new(0, 0), Point::new(10, 0), Point::new(10, 10)];
    let location = Point::new(9, 9);
    assert_eq!(1, PatrolSystem::next_waypoint(&waypoints, 0, location, true));
    assert_eq!(2, PatrolSystem::next_waypoint(&waypoints, 1, location, true));
    assert_eq!(0, PatrolSystem::next_waypoint(&waypoints, 2, location, true));
}

#[test]
fn patrol_begins_at_the_nearest_waypoint() {
    let waypoints = vec![Point::new(0, 0), Point::new(10, 0), Point::new(10, 10)];
    assert_eq!(2, PatrolSystem::next_waypoint(&waypoints, 0, Point::new(9, 9), false));
    assert_eq!(0, PatrolSystem::next_waypoint(&waypoints, 1, Point::new(-3, 1), false));
    // Of two at the same distance the first.
    assert_eq!(0, PatrolSystem::next_waypoint(&waypoints, 2, Point::new(5, 0), false));
}

#[test]
fn chase_picks_the_nearest_other_ship() {
    let locations = vec![Point::new(0, 0), Point::new(100, 0), Point::new(30, 40), Point::new(0, 1)];
    assert_eq!(Some(3), ChaseSystem::closest_ship(&locations, 0));
    assert_eq!(Some(2), ChaseSystem::closest_ship(&locations, 1));
    assert_eq!(Some(0), ChaseSystem::closest_ship(&locations, 3));
    assert_eq!(None, ChaseSystem::closest_ship(&vec![Point::new(1, 1)], 0));
}

#[test]
fn nearest_index_leaves_out_the_place_to_skip() {
    let points = vec![Point::new(5, 5), Point::new(6, 6)];
    assert_eq!(Some(0), nearest_index(&points, None, Point::new(5, 5)));
    assert_eq!(Some(1), nearest_index(&points, Some(0), Point::new(5, 5)));
    assert_eq!(None, nearest_index(&vec![], None, Point::new(5, 5)));
    assert_eq!(None, nearest_index(&vec![Point::new(1, 2)], Some(0), Point::new(5, 5)));
}

#[test]
fn boxes_touch_where_a_corner_of_the_first_lies_in_the_second() {
    let small = Bounds { left: 0, right: 2, top: 2, bottom: 0 };
    let near = Bounds { left: 1, right: 5, top: 5, bottom: 1 };
    let far = Bounds { left: 3, right: 5, top: 5, bottom: 3 };
    let big = Bounds { left: -10, right: 10, top: 10, bottom: -10 };
    assert!(CollisionSystem::bounding_boxes_intersect(small, near));
    assert!(!CollisionSystem::bounding_boxes_intersect(small, far));
    assert!(CollisionSystem::bounding_boxes_intersect(small, big));
    // No corner of the big box lies in the small one.
    assert!(!CollisionSystem::bounding_boxes_intersect(big, small));
    assert!(point_in_rect(Point::new(2, 2), small));
    assert!(!point_in_rect(Point::new(3, 2), small));
}

#[test]
fn item_types_have_names_and_numbers() {
    assert_eq!("Rum", ItemType::Rum.name());
    assert_eq!("Sugar", ItemType::Sugar.name());
    assert_eq!("Whiskey", ItemType::Whiskey.name());
    assert!(ItemType::from_index(0) == ItemType::Sugar);
    assert!(ItemType::from_index(1) == ItemType::Rum);
    assert!(ItemType::from_index(2) == ItemType::Whiskey);
    assert!(ItemType::from_index(3) == ItemType::Sugar);
}
