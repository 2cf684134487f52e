use age_of_sail::geometry::{
    clamp_coordinate, component_of_unit, cross_2d, div_round, dot_2d, integer_root,
    integer_root_up, on_line, unit_vector, Point, Vector, COORDINATE_MAX,
};

#[test]
fn cross_2d_is_positive_to_the_left() {
    assert_eq!(1, cross_2d(Vector::new(1, 0), Vector::new(0, 1)));
    assert_eq!(-1, cross_2d(Vector::new(0, 1), Vector::new(1, 0)));
    assert_eq!(0, cross_2d(Vector::new(2, 4), Vector::new(-1, -2)));
    assert_eq!(950, cross_2d(Vector::new(40, 1), Vector::new(50, 25)));
    assert_eq!(
        -2_000_000_000_000,
        cross_2d(Vector::new(1_000_000, 1_000_000), Vector::new(1_000_000, -1_000_000))
    );
}

#[test]
fn dot_2d_is_the_sum_of_the_products() {
    assert_eq!(11, dot_2d(Vector::new(1, 2), Vector::new(3, 4)));
    assert_eq!(0, dot_2d(Vector::new(1, 0), Vector::new(0, 1)));
    assert_eq!(
        2_000_000_000_000,
        dot_2d(Vector::new(-1_000_000, 1_000_000), Vector::new(-1_000_000, 1_000_000))
    );
}

#[test]
fn on_line_holds_between_the_ends() {
    let start = Point::new(50, 100);
    let direction = Vector::new(50, 25);
    assert!(on_line(Point::new(52, 101), start, direction));
    assert!(on_line(Point::new(50, 100), start, direction));
    assert!(on_line(Point::new(100, 125), start, direction));
    assert!(!on_line(Point::new(102, 126), start, direction));
    assert!(!on_line(Point::new(48, 99), start, direction));
    assert!(!on_line(Point::new(52, 102), start, direction));
}

#[test]
fn on_line_without_length_holds_at_the_start_only() {
    let start = Point::new(3, 4);
    assert!(on_line(Point::new(3, 4), start, Vector::new(0, 0)));
    assert!(!on_line(Point::new(3, 5), start, Vector::new(0, 0)));
}

#[test]
fn minus_and_moved_by_undo_each_other_in_bounds() {
    let a = Point::new(10, -20);
    let b = Point::new(-5, 7);
    let way = b.minus(&a);
    assert_eq!(Vector::new(-15, 27), way);
    assert_eq!(b, a.moved_by(&way));
}

#[test]
fn moved_by_stops_at_the_bounds() {
    let corner = Point::new(COORDINATE_MAX - 1, -COORDINATE_MAX + 1);
    assert_eq!(
        Point::new(COORDINATE_MAX, -COORDINATE_MAX),
        corner.moved_by(&Vector::new(5, -5))
    );
    assert_eq!(COORDINATE_MAX, clamp_coordinate(COORDINATE_MAX + 1));
    assert_eq!(-COORDINATE_MAX, clamp_coordinate(-COORDINATE_MAX - 1));
    assert_eq!(17, clamp_coordinate(17));
}

#[test]
fn is_in_bounds_includes_the_bounds() {
    assert!(Point::new(COORDINATE_MAX, -COORDINATE_MAX).is_in_bounds());
    assert!(!Point::new(COORDINATE_MAX + 1, 0).is_in_bounds());
    assert!(!Point::new(0, -COORDINATE_MAX - 1).is_in_bounds());
    assert!(Vector::new(2 * COORDINATE_MAX, -2 * COORDINATE_MAX).is_in_bounds());
    assert!(!Vector::new(2 * COORDINATE_MAX + 1, 0).is_in_bounds());
    assert!(Vector::new(0, 0).is_zero());
    assert!(!Vector::new(0, 1).is_zero());
}

#[test]
fn div_round_rounds_to_the_nearest_halves_upwards() {
    assert_eq!(3, div_round(7, 2) - 1);
    assert_eq!(4, div_round(7, 2));
    assert_eq!(2, div_round(5, 2) - 1);
    assert_eq!(-3, div_round(-7, 2));
    assert_eq!(-2, div_round(-5, 2));
    assert_eq!(0, div_round(-1, 2));
    assert_eq!(0, div_round(1, 3));
    assert_eq!(1, div_round(2, 3));
    assert_eq!(-1, div_round(-2, 3));
    assert_eq!(53, div_round(1000, 19));
    assert_eq!(-53, div_round(-1000, 19));
    assert_eq!(0, div_round(0, 7));
}

#[test]
fn integer_root_is_the_root_rounded_down() {
    assert_eq!(0, integer_root(0));
    assert_eq!(1, integer_root(1));
    assert_eq!(1, integer_root(3));
    assert_eq!(2, integer_root(4));
    assert_eq!(7, integer_root(63));
    assert_eq!(8, integer_root(64));
    assert_eq!(1_414_213, integer_root(2_000_000_000_000));
    assert_eq!(
        1_000_000_000_000_000,
        integer_root(1_000_000_000_000_000_000_000_000_000_000)
    );
}

#[test]
fn integer_root_up_is_the_root_rounded_up() {
    assert_eq!(0, integer_root_up(0));
    assert_eq!(1, integer_root_up(1));
    assert_eq!(2, integer_root_up(2));
    assert_eq!(2, integer_root_up(4));
    assert_eq!(3, integer_root_up(5));
    assert_eq!(8, integer_root_up(50));
    assert_eq!(1_414_214, integer_root_up(2_000_000_000_000));
}

#[test]
fn unit_vector_has_the_length_of_the_margin() {
    assert_eq!(Vector::new(100, 0), unit_vector(Vector::new(7, 0), 100));
    assert_eq!(Vector::new(0, -100), unit_vector(Vector::new(0, -3), 100));
    assert_eq!(Vector::new(60, 80), unit_vector(Vector::new(3, 4), 100));
    assert_eq!(Vector::new(-89, 45), unit_vector(Vector::new(-50, 25), 100));
    assert_eq!(Vector::new(71, -71), unit_vector(Vector::new(1_000_000, -1_000_000), 100));
    assert_eq!(Vector::new(1, 0), unit_vector(Vector::new(50, 25), 1));
    assert_eq!(Vector::new(0, 0), unit_vector(Vector::new(50, 25), 0));
}

#[test]
fn unit_vector_of_nothing_is_nothing() {
    assert_eq!(Vector::new(0, 0), unit_vector(Vector::new(0, 0), 100));
    assert_eq!(0, component_of_unit(0, 0, 1_000));
}
