use age_of_sail::geometry::{Point, Vector};
use age_of_sail::graph::Edge as GraphEdge;
use age_of_sail::map::{Edge, WorldMap};
use std::collections::HashSet;

// One unit of the world is SCALE steps of the lattice.
const SCALE: i64 = 100;

fn fine(x: f64, y: f64) -> Point {
    Point::new((x * SCALE as f64).round() as i64, (y * SCALE as f64).round() as i64)
}

fn fine_vector(x: f64, y: f64) -> Vector {
    Vector::new((x * SCALE as f64).round() as i64, (y * SCALE as f64).round() as i64)
}

fn coarse(p: Point) -> (f64, f64) {
    (p.x as f64 / SCALE as f64, p.y as f64 / SCALE as f64)
}

fn distance(a: (f64, f64), b: (f64, f64)) -> f64 {
    ((a.0 - b.0).powi(2) + (a.1 - b.1).powi(2)).sqrt()
}

fn two_islands() -> WorldMap {
    WorldMap {
        islands: vec![
            vec![fine(50.0, 100.0), fine(100.0, 125.0), fine(100.0, 75.0)],
            vec![
                fine(50.0, 0.0),
                fine(100.0, 25.0),
                fine(100.0, -25.0),
                fine(100.0, -25.0),
                fine(100.0, 25.0),
                fine(150.0, 0.0),
            ],
        ],
        margin: SCALE,
    }
}

fn diamond() -> WorldMap {
    WorldMap {
        islands: vec![vec![
            fine(50.0, 0.0),
            fine(100.0, 25.0),
            fine(100.0, -25.0),
            fine(100.0, -25.0),
            fine(100.0, 25.0),
            fine(150.0, 0.0),
        ]],
        margin: SCALE,
    }
}

fn triangle_island() -> WorldMap {
    WorldMap {
        islands: vec![vec![Point::new(50, 0), Point::new(100, 25), Point::new(100, -25)]],
        margin: 1,
    }
}

#[test]
fn into_vertices_produces_conserves_number_of_triangles_specified() {
    let map = WorldMap {
        islands: vec![
            vec![Point::new(50, 100), Point::new(100, 125), Point::new(100, 75)],
            vec![
                Point::new(50, 0),
                Point::new(100, 25),
                Point::new(100, -25),
                Point::new(100, -25),
                Point::new(100, 25),
                Point::new(150, 0),
            ],
        ],
        margin: 1,
    };
    let vertices = map.into_vertices();
    assert_eq!(9, vertices.len(), "number of vertices");
}

#[test]
fn into_vertices_keeps_the_order_of_the_islands() {
    let map = triangle_island();
    assert_eq!(
        vec![Point::new(50, 0), Point::new(100, 25), Point::new(100, -25)],
        map.into_vertices()
    );
}

#[test]
fn on_land_outside_of_land() {
    assert!(!two_islands().on_land(fine(0.0, 0.0)));
}

#[test]
fn on_land_on_smaller_island() {
    assert!(two_islands().on_land(fine(75.0, 110.0)));
}

#[test]
fn on_land_on_bigger_island() {
    assert!(two_islands().on_land(fine(110.0, 0.0)));
}

#[test]
fn on_land_on_corner() {
    assert!(two_islands().on_land(fine(50.0, 0.0)));
}

#[test]
fn on_land_on_edge() {
    assert!(two_islands().on_land(fine(52.0, 101.0)));
}

#[test]
fn on_land_just_off_an_edge_is_sea() {
    assert!(!two_islands().on_land(fine(52.0, 101.01)));
    assert!(two_islands().on_land(fine(52.0, 100.99)));
}

#[test]
fn on_land_scenario_of_the_triangle_island() {
    let map = triangle_island();
    assert!(!map.on_land(Point::new(0, 0)));
    assert!(map.on_land(Point::new(65, 5)));
}

#[test]
fn on_land_of_a_triangle_without_area_is_its_segments() {
    let map = WorldMap {
        islands: vec![vec![Point::new(0, 0), Point::new(10, 10), Point::new(20, 20)]],
        margin: 1,
    };
    assert!(map.on_land(Point::new(5, 5)));
    assert!(map.on_land(Point::new(20, 20)));
    assert!(!map.on_land(Point::new(30, 30)));
    assert!(!map.on_land(Point::new(5, 6)));
}

#[test]
fn is_valid_tells_flat_lists_of_triangles_in_bounds() {
    assert!(triangle_island().is_valid());
    let short = WorldMap { islands: vec![vec![Point::new(0, 0), Point::new(1, 1)]], margin: 1 };
    assert!(!short.is_valid());
    let far = WorldMap {
        islands: vec![vec![Point::new(0, 0), Point::new(1, 1), Point::new(500_001, 0)]],
        margin: 1,
    };
    assert!(!far.is_valid());
    let wide = WorldMap { islands: vec![], margin: 1_001 };
    assert!(!wide.is_valid());
}

#[test]
fn outer_edges_leaves_out_the_shared_side() {
    let map = WorldMap {
        islands: vec![vec![
            Point::new(50, 0),
            Point::new(100, 25),
            Point::new(100, -25),
            Point::new(100, -25),
            Point::new(100, 25),
            Point::new(150, 0),
        ]],
        margin: 1,
    };
    assert_eq!(
        vec![
            Edge(Point::new(50, 0), Point::new(100, 25)),
            Edge(Point::new(100, -25), Point::new(50, 0)),
            Edge(Point::new(100, 25), Point::new(150, 0)),
            Edge(Point::new(150, 0), Point::new(100, -25)),
        ],
        map.outer_edges()
    );
}

#[test]
fn outer_edges_form_closed_rounds() {
    let edges = diamond().outer_edges();
    for edge in &edges {
        for end in [edge.0, edge.1] {
            let meeting = edges.iter().filter(|other| other.0 == end || other.1 == end).count();
            assert_eq!(2, meeting, "edges that meet in {:?}", end);
        }
    }
}

#[test]
fn closest_point_on_edge_point_not_on_land() {
    let closest_point = diamond().closest_point_on_edge(fine(0.0, 0.0));
    assert!(
        distance(coarse(closest_point), (50.0, 0.0)) < 1.0,
        "Adjusted corner is close enough {:?}",
        closest_point
    );
}

#[test]
fn closest_point_on_edge_point_on_land() {
    let closest_point = diamond().closest_point_on_edge(fine(65.0, 5.0));
    assert!(
        distance(coarse(closest_point), (63.5, 7.89)) < 1.0,
        "Adjusted corner is close enough {:?}",
        closest_point
    );
}

#[test]
fn closest_point_on_edge_point_near_a_middle_edge() {
    let closest_point = diamond().closest_point_on_edge(fine(98.0, 1.0));
    assert!(
        distance(coarse(closest_point), (88.0, 20.0)) < 1.0,
        "Adjusted corner is close enough {:?}",
        closest_point
    );
}

#[test]
fn closest_point_on_edge_is_the_foot_moved_by_the_margin() {
    // The foot of (65, 5) on the edge from (50, 0) to (100, 25) is (64, 7);
    // the margin of one step to the left of the edge leads to (64, 8).
    let map = WorldMap {
        islands: vec![vec![Point::new(50, 0), Point::new(100, 25), Point::new(100, -25)]],
        margin: 1,
    };
    assert_eq!(Point::new(64, 8), map.closest_point_on_edge(Point::new(65, 5)));
}

#[test]
fn closest_point_on_edge_is_not_on_land() {
    let map = diamond();
    for point in [fine(0.0, 0.0), fine(65.0, 5.0), fine(98.0, 1.0), fine(140.0, -20.0)] {
        assert!(!map.on_land(map.closest_point_on_edge(point)));
    }
}

#[test]
fn closest_point_on_edge_without_coast_is_the_origin() {
    let map = WorldMap { islands: vec![], margin: 1 };
    assert_eq!(Point::new(0, 0), map.closest_point_on_edge(Point::new(7, 9)));
}

fn close_to(found: Option<Point>, expected: (f64, f64)) -> bool {
    match found {
        Some(point) => distance(coarse(point), expected) < 0.01,
        None => false,
    }
}

#[test]
fn closest_point_of_line_on_edge_line_outside_of_land_and_strict() {
    let found =
        diamond().closest_point_of_line_on_edge(fine(0.0, 0.0), fine_vector(40.0, 1.0), true);
    assert_eq!(None, found);
}

#[test]
fn closest_point_of_line_on_edge_line_outside_of_land_but_passing_through_and_not_strict() {
    let found =
        diamond().closest_point_of_line_on_edge(fine(0.0, 0.0), fine_vector(40.0, 1.0), false);
    assert!(close_to(found, (52.63158, 1.3157893)), "{:?}", found);
}

#[test]
fn closest_point_of_line_on_edge_line_outside_of_land_not_passing_through_and_not_strict() {
    let found =
        diamond().closest_point_of_line_on_edge(fine(0.0, 0.0), fine_vector(0.0, 10.0), false);
    assert_eq!(None, found);
}

#[test]
fn closest_point_of_line_on_edge_starting_point_inside_land_closest_point_behind_and_strict() {
    let found =
        diamond().closest_point_of_line_on_edge(fine(60.0, 2.5), fine_vector(100.0, 0.0), true);
    assert_eq!(Some(fine(145.0, 2.5)), found);
}

#[test]
fn closest_point_of_line_on_edge_starting_point_inside_land_closest_point_behind_and_not_strict() {
    let found =
        diamond().closest_point_of_line_on_edge(fine(60.0, 3.0), fine_vector(100.0, 0.0), false);
    assert_eq!(Some(fine(56.0, 3.0)), found);
}

#[test]
fn closest_point_of_line_on_edge_rounds_to_the_lattice() {
    // The line meets the edge from (50, 0) to (100, 25) in (1000/19, 25/19).
    let map = triangle_island();
    let found = map.closest_point_of_line_on_edge(Point::new(0, 0), Vector::new(40, 1), false);
    assert_eq!(Some(Point::new(53, 1)), found);
}

#[test]
fn closest_point_of_line_on_edge_of_a_line_without_length_is_none() {
    let map = triangle_island();
    assert_eq!(None, map.closest_point_of_line_on_edge(Point::new(50, 0), Vector::new(0, 0), true));
}

#[test]
fn closest_point_of_line_on_edge_along_an_edge_meets_its_far_end() {
    let map = triangle_island();
    let found = map.closest_point_of_line_on_edge(Point::new(100, -50), Vector::new(0, 100), true);
    assert_eq!(Some(Point::new(100, -25)), found);
}

#[test]
fn closest_corner_to_line_is_the_nearest_corner_not_visited() {
    let map = triangle_island();
    let found = map.closest_corner_to_line(Point::new(0, 1), Vector::new(40, 0), &vec![]);
    // The line meets the coast in (52, 1); the nearest corner is (50, 0),
    // pushed away from both its neighbours, each by one step to the left.
    assert_eq!(Some((Point::new(48, 0), Point::new(50, 0))), found);
    let next =
        map.closest_corner_to_line(Point::new(0, 1), Vector::new(40, 0), &vec![Point::new(50, 0)]);
    assert_eq!(Some(Point::new(100, 25)), next.map(|pair| pair.1));
}

#[test]
fn closest_corner_to_line_of_a_line_that_misses_is_none() {
    let map = triangle_island();
    assert_eq!(None, map.closest_corner_to_line(Point::new(0, 0), Vector::new(0, 10), &vec![]));
}

#[test]
fn corners_and_edges_pushes_the_corners_off_the_coast() {
    let (corners, edges) = triangle_island().corners_and_edges();
    assert_eq!(vec![Point::new(48, 0), Point::new(101, 26), Point::new(101, -26)], corners);
    assert_eq!(vec![GraphEdge(0, 1), GraphEdge(1, 2), GraphEdge(2, 0)], edges);
}

#[test]
fn nodes_and_edges_connected_does_not_returns_edges_for_points_that_cannot_directly_connect() {
    let map = triangle_island();

    let graph = map.nodes_and_edges_connected(vec![Point::new(0, 0), Point::new(120, 0)]);
    let edges = HashSet::<GraphEdge>::from_iter(graph.edges.into_iter());

    assert!(
        !edges.contains(&GraphEdge(3, 4)) && !edges.contains(&GraphEdge(4, 3)),
        "Edges does not contain edge from start point to end point"
    );

    let number_connected_to_end_point =
        edges.iter().filter(|edge| edge.0 == 4 || edge.1 == 4).count();
    assert_eq!(2, number_connected_to_end_point, "Number of nodes end point is connected to");
}

#[test]
fn nodes_and_edges_connected_returns_edges_for_every_point_that_connects_to_a_corner() {
    let map = triangle_island();

    let graph = map.nodes_and_edges_connected(vec![Point::new(0, 0), Point::new(120, 0)]);
    let edges = HashSet::<GraphEdge>::from_iter(graph.edges.into_iter());

    let number_connected_to_end_point =
        edges.iter().filter(|edge| edge.0 == 3 || edge.1 == 3).count();
    assert_eq!(3, number_connected_to_end_point, "Number of nodes start point is connected to");

    let number_connected_to_end_point =
        edges.iter().filter(|edge| edge.0 == 4 || edge.1 == 4).count();
    assert_eq!(2, number_connected_to_end_point, "Number of nodes end point is connected to");
}

#[test]
fn nodes_and_edges_connected_adds_all_new_points_to_graph() {
    let map = triangle_island();

    let graph = map.nodes_and_edges_connected(vec![
        Point::new(0, 0),
        Point::new(120, 0),
        Point::new(150, 0),
    ]);
    assert_eq!(6, graph.nodes.len(), "Graph nodes");
}

#[test]
fn nodes_and_edges_connected_only_includes_corners_and_outer_edges_of_land() {
    let map = WorldMap {
        islands: vec![vec![
            Point::new(50, 0),
            Point::new(100, 25),
            Point::new(100, -25),
            Point::new(100, -25),
            Point::new(100, 25),
            Point::new(150, 0),
        ]],
        margin: 1,
    };

    let graph = map.nodes_and_edges_connected(vec![]);
    assert_eq!(4, graph.nodes.len(), "Graph nodes");
    assert_eq!(4, graph.edges.len(), "Graph edges");
}

#[test]
fn nodes_and_edges_connected_joins_points_in_sight_both_ways() {
    let map = triangle_island();
    let graph = map.nodes_and_edges_connected(vec![Point::new(0, 0), Point::new(0, 40)]);
    assert!(graph.edges.contains(&GraphEdge(3, 4)));
    assert!(graph.edges.contains(&GraphEdge(4, 3)));
    assert!(!graph.edges.iter().any(|edge| edge.0 == edge.1));
}

#[test]
fn closest_point_on_edge_scenario_of_the_triangle_island() {
    let map = WorldMap {
        islands: vec![vec![fine(50.0, 0.0), fine(100.0, 25.0), fine(100.0, -25.0)]],
        margin: SCALE,
    };
    let closest_point = map.closest_point_on_edge(fine(0.0, 0.0));
    assert!(distance(coarse(closest_point), (50.0, 0.0)) <= 1.0, "{:?}", closest_point);
    assert!(!map.on_land(closest_point));
}

#[test]
fn default_is_a_map_without_islands() {
    let map = WorldMap::default();
    assert!(map.islands.is_empty());
    assert!(map.is_valid());
    assert!(!map.on_land(Point::new(0, 0)));
    assert_eq!(Vec::<Edge>::new(), map.outer_edges());
    let graph = map.nodes_and_edges_connected(vec![Point::new(0, 0), Point::new(9, 9)]);
    assert_eq!(vec![GraphEdge(0, 1), GraphEdge(1, 0)], graph.edges);
    assert_eq!(vec![Point::new(0, 0), Point::new(9, 9)], graph.a_star(0, 1));
}
