use age_of_sail::components::ItemType;
use age_of_sail::decompose::segments_of;
use age_of_sail::geometry::Point;
use age_of_sail::map::{position_of, Edge};
use age_of_sail::trapezoid::Trapezoid;
use age_of_sail::triangulate::{
    find_diagonal, find_diagonals, is_start_inside, split_by_diagonals, touch_of,
    triangulate_polygon, triangulate_ring, walk, Touch,
};

fn band() -> Trapezoid {
    Trapezoid {
        left: Edge(Point::new(0, 10), Point::new(0, 0)),
        right: Edge(Point::new(10, 0), Point::new(10, 10)),
        top: 10,
        bottom: 0,
    }
}

fn letters() -> Vec<Point> {
    vec![Point::new(0, 0), Point::new(1, 0), Point::new(2, 0), Point::new(3, 0), Point::new(4, 0)]
}

#[test]
fn touch_of_names_the_sides_a_point_lies_on() {
    let none = Touch { top: false, right: false, bottom: false, left: false };
    assert_eq!(Touch { top: true, left: true, ..none }, touch_of(&band(), Point::new(0, 10)));
    assert_eq!(Touch { bottom: true, right: true, ..none }, touch_of(&band(), Point::new(10, 0)));
    assert_eq!(Touch { top: true, ..none }, touch_of(&band(), Point::new(4, 10)));
    assert_eq!(Touch { left: true, ..none }, touch_of(&band(), Point::new(0, 4)));
    assert_eq!(none, touch_of(&band(), Point::new(4, 4)));
    assert_eq!(none, touch_of(&band(), Point::new(20, 10)));
    // On the line of a side, but above the trapezoid.
    assert_eq!(none, touch_of(&band(), Point::new(0, 11)));
}

#[test]
fn find_diagonal_joins_two_points_on_different_sides() {
    let ring = vec![Point::new(0, 10), Point::new(10, 0), Point::new(20, 20)];
    assert_eq!(
        Some(Edge(Point::new(0, 10), Point::new(10, 0))),
        find_diagonal(&band(), &ring)
    );
}

#[test]
fn find_diagonal_needs_exactly_two_points_on_no_common_side() {
    let three = vec![Point::new(0, 10), Point::new(10, 0), Point::new(10, 10)];
    assert_eq!(None, find_diagonal(&band(), &three));
    let one = vec![Point::new(0, 10), Point::new(20, 0), Point::new(20, 20)];
    assert_eq!(None, find_diagonal(&band(), &one));
    let same_side = vec![Point::new(0, 10), Point::new(0, 0), Point::new(20, 20)];
    assert_eq!(None, find_diagonal(&band(), &same_side));
}

#[test]
fn find_diagonals_gives_one_for_each_trapezoid_that_has_one() {
    let ring = vec![Point::new(0, 10), Point::new(10, 0), Point::new(20, 20)];
    let far = Trapezoid { top: 100, bottom: 50, ..band() };
    assert_eq!(
        vec![Edge(Point::new(0, 10), Point::new(10, 0))],
        find_diagonals(&vec![far, band(), far], &ring)
    );
}

#[test]
fn walk_goes_round_to_the_first_end() {
    let ring = letters();
    assert_eq!(vec![ring[1], ring[2], ring[3]], walk(&ring, 1, ring[3], true));
    assert_eq!(vec![ring[1], ring[0], ring[4], ring[3]], walk(&ring, 1, ring[3], false));
    assert_eq!(vec![ring[3], ring[4], ring[0]], walk(&ring, 3, ring[0], true));
    assert_eq!(vec![ring[2]], walk(&ring, 2, ring[2], true));
    // Once round where the end does not occur.
    assert_eq!(
        vec![ring[2], ring[1], ring[0], ring[4], ring[3]],
        walk(&ring, 2, Point::new(9, 9), false)
    );
}

#[test]
fn split_by_diagonals_cuts_the_polygons_that_hold_both_ends() {
    let ring = letters();
    assert_eq!(vec![ring.clone()], split_by_diagonals(&ring, &vec![]));
    assert_eq!(
        vec![vec![ring[0], ring[1], ring[2]], vec![ring[0], ring[4], ring[3], ring[2]]],
        split_by_diagonals(&ring, &vec![Edge(ring[0], ring[2])])
    );
    assert_eq!(
        vec![
            vec![ring[0], ring[1], ring[2]],
            vec![ring[4], ring[3], ring[2]],
            vec![ring[4], ring[0], ring[2]],
        ],
        split_by_diagonals(&ring, &vec![Edge(ring[0], ring[2]), Edge(ring[4], ring[2])])
    );
    assert_eq!(
        vec![ring.clone()],
        split_by_diagonals(&ring, &vec![Edge(ring[0], Point::new(9, 9))])
    );
}

#[test]
fn position_of_is_the_first_place() {
    let points = vec![Point::new(1, 1), Point::new(2, 2), Point::new(1, 1)];
    assert_eq!(Some(0), position_of(&points, Point::new(1, 1)));
    assert_eq!(Some(1), position_of(&points, Point::new(2, 2)));
    assert_eq!(None, position_of(&points, Point::new(3, 3)));
}

#[test]
fn is_start_inside_looks_just_off_the_first_point() {
    let square =
        vec![Point::new(0, 0), Point::new(10, 0), Point::new(10, 10), Point::new(0, 10)];
    let segments = segments_of(&square);
    assert!(is_start_inside(&segments, Point::new(0, 0), Point::new(10, 10)));
    assert!(is_start_inside(&segments, Point::new(10, 10), Point::new(0, 0)));
    assert!(!is_start_inside(&segments, Point::new(0, 0), Point::new(-10, -10)));
    assert!(!is_start_inside(&segments, Point::new(10, 0), Point::new(20, 10)));
    assert!(is_start_inside(&segments, Point::new(5, 5), Point::new(6, 6)));
}

#[test]
fn triangulate_polygon_cuts_a_triangle_off_at_a_corner() {
    let square =
        vec![Point::new(0, 0), Point::new(10, 0), Point::new(10, 10), Point::new(0, 10)];
    let segments = segments_of(&square);
    assert_eq!(
        vec![
            Point::new(0, 10),
            Point::new(0, 0),
            Point::new(10, 0),
            Point::new(10, 0),
            Point::new(10, 10),
            Point::new(0, 10),
        ],
        triangulate_polygon(&square, &segments)
    );
    assert_eq!(triangulate_ring(&square), triangulate_polygon(&square, &segments));
    assert_eq!(Vec::<Point>::new(), triangulate_polygon(&vec![], &segments));
}

#[test]
fn triangulate_ring_turns_a_triangle_counter_clockwise() {
    let clockwise = vec![Point::new(50, 0), Point::new(100, 25), Point::new(100, -25)];
    assert_eq!(
        vec![Point::new(100, -25), Point::new(100, 25), Point::new(50, 0)],
        triangulate_ring(&clockwise)
    );
}

#[test]
fn pick_gives_one_of_the_kinds_of_goods() {
    for _ in 0..50 {
        let item = ItemType::pick();
        assert!(item == ItemType::Rum || item == ItemType::Sugar || item == ItemType::Whiskey);
    }
}

#[test]
fn pick_gives_every_kind_of_goods_in_the_long_run() {
    let mut seen = [false; 3];
    for _ in 0..2_000 {
        match ItemType::pick() {
            ItemType::Rum => seen[0] = true,
            ItemType::Sugar => seen[1] = true,
            ItemType::Whiskey => seen[2] = true,
        }
    }
    assert_eq!([true, true, true], seen);
}

#[test]
fn of_choice_is_the_kind_that_was_chosen() {
    assert!(ItemType::of_choice(Some(ItemType::Rum)) == ItemType::Rum);
    assert!(ItemType::of_choice(Some(ItemType::Whiskey)) == ItemType::Whiskey);
    assert!(ItemType::of_choice(Some(ItemType::Sugar)) == ItemType::Sugar);
    assert!(ItemType::of_choice(None) == ItemType::Sugar);
}
