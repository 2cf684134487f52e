use age_of_sail::decompose::{is_corner_within, segments_of, Decomposition};
use age_of_sail::geometry::Point;
use age_of_sail::map::Edge;
use age_of_sail::trapezoid::{Corner, QueryNode, QueryStructure, Trapezoid};

fn square() -> Vec<Point> {
    vec![Point::new(0, 0), Point::new(10, 0), Point::new(10, 10), Point::new(0, 10)]
}

#[test]
fn segments_of_a_ring_close_it() {
    assert_eq!(
        vec![
            Edge(Point::new(0, 0), Point::new(10, 0)),
            Edge(Point::new(10, 0), Point::new(10, 10)),
            Edge(Point::new(10, 10), Point::new(0, 10)),
            Edge(Point::new(0, 10), Point::new(0, 0)),
        ],
        segments_of(&square())
    );
    assert_eq!(
        vec![Edge(Point::new(1, 2), Point::new(1, 2))],
        segments_of(&vec![Point::new(1, 2)])
    );
}

#[test]
fn order_by_y_puts_the_higher_end_first() {
    let up = Edge(Point::new(0, 0), Point::new(3, 9));
    assert_eq!(Edge(Point::new(3, 9), Point::new(0, 0)), up.order_by_y());
    let down = Edge(Point::new(3, 9), Point::new(0, 0));
    assert_eq!(down, down.order_by_y());
}

#[test]
fn split_vertically_cuts_at_the_height() {
    let whole = Trapezoid::whole_plane();
    let (above, below) = whole.split_vertically(7);
    assert_eq!((whole.top, 7), (above.top, above.bottom));
    assert_eq!((7, whole.bottom), (below.top, below.bottom));
    assert_eq!(whole.left, above.left);
    assert_eq!(whole.right, below.right);
}

#[test]
fn split_horizontally_cuts_along_a_segment_that_goes_through() {
    let (band, _) = Trapezoid::whole_plane().split_vertically(0);
    let (_, band) = band.split_vertically(10);
    let through = Edge(Point::new(0, -5), Point::new(20, 15));
    let (left, right) = band.split_horizontally(through).unwrap();
    assert_eq!(through, left.right);
    assert_eq!(through, right.left);
    assert_eq!(band.left, left.left);
    assert_eq!(band.right, right.right);
    let short = Edge(Point::new(0, 1), Point::new(20, 9));
    assert_eq!(None, band.split_horizontally(short));
    let level = Edge(Point::new(0, 5), Point::new(20, 5));
    assert_eq!(None, band.split_horizontally(level));
    assert!(band.segment_intersects_horizontal_edges(through));
    assert!(!band.segment_intersects_horizontal_edges(short));
}

#[test]
fn query_finds_the_part_on_the_side_of_the_point() {
    let mut structure = QueryStructure::new();
    assert_eq!(0, structure.query(Point::new(3, 3)));
    structure.insert_y_node(0, 1, 2, 5);
    assert_eq!(1, structure.query(Point::new(3, 5)));
    assert_eq!(2, structure.query(Point::new(3, 4)));
    structure.insert_x_node(1, 3, 4, Edge(Point::new(0, 0), Point::new(10, 10)));
    assert_eq!(3, structure.query(Point::new(6, 6)));
    assert_eq!(3, structure.query(Point::new(5, 6)));
    assert_eq!(4, structure.query(Point::new(7, 6)));
    assert_eq!(2, structure.query(Point::new(7, 4)));
    assert_eq!(
        vec![
            QueryNode::Y(5, 1, 2),
            QueryNode::X(Edge(Point::new(0, 0), Point::new(10, 10)), 3, 4),
            QueryNode::Trapezoid(2),
            QueryNode::Trapezoid(3),
            QueryNode::Trapezoid(4),
        ],
        structure.nodes
    );
}

#[test]
fn decomposition_finds_every_point_in_a_trapezoid_that_is_left() {
    let cut = Decomposition::of_outline(&segments_of(&square()));
    for point in [Point::new(5, 5), Point::new(-3, 2), Point::new(12, 20), Point::new(0, 0)] {
        let index = cut.structure.query(point);
        let trapezoid = cut.trapezoids[index].expect("a trapezoid that was not cut");
        assert!(trapezoid.bottom <= point.y && point.y <= trapezoid.top);
    }
}

#[test]
fn decomposition_keeps_the_trapezoid_inside_the_square() {
    let segments = segments_of(&square());
    let cut = Decomposition::of_outline(&segments);
    let inside = cut.inside(&segments);
    let body = Trapezoid {
        left: Edge(Point::new(0, 10), Point::new(0, 0)),
        right: Edge(Point::new(10, 0), Point::new(10, 10)),
        top: 10,
        bottom: 0,
    };
    assert!(inside.contains(&body));
    assert!(inside.iter().all(|t| t.top <= 10 && t.bottom >= 0));
}

#[test]
fn corner_within_counts_the_crossings_to_the_right() {
    let segments = segments_of(&square());
    let middle = Corner { line: Edge(Point::new(5, 0), Point::new(5, 10)), y: 5 };
    assert!(is_corner_within(&middle, &segments));
    let outside = Corner { line: Edge(Point::new(15, 0), Point::new(15, 10)), y: 5 };
    assert!(!is_corner_within(&outside, &segments));
    let left = Corner { line: Edge(Point::new(-5, 0), Point::new(-5, 10)), y: 5 };
    assert!(!is_corner_within(&left, &segments));
    let on_side = Corner { line: Edge(Point::new(10, 0), Point::new(10, 10)), y: 3 };
    assert!(is_corner_within(&on_side, &segments));
    assert!(on_side.is_on(&segments[1]));
    assert!(middle.crosses(&segments[1]));
    assert!(!middle.crosses(&segments[3]));
}

#[test]
fn intersects_tells_crossing_segments() {
    let a = Edge(Point::new(0, 0), Point::new(10, 10));
    assert!(a.intersects(&Edge(Point::new(0, 10), Point::new(10, 0))));
    assert!(!a.intersects(&Edge(Point::new(0, 10), Point::new(4, 6))));
    // A common end is no crossing, a segment within the other is.
    assert!(!a.intersects(&Edge(Point::new(10, 10), Point::new(20, 0))));
    assert!(a.intersects(&Edge(Point::new(2, 2), Point::new(5, 5))));
    assert!(!a.intersects(&Edge(Point::new(5, 5), Point::new(12, 12))));
    assert!(!a.intersects(&Edge(Point::new(0, 1), Point::new(10, 11))));
    // An end on the other segment is a crossing.
    assert!(a.intersects(&Edge(Point::new(5, 5), Point::new(5, 0))));
}
