use age_of_sail::geometry::Point;
use age_of_sail::graph::{Edge, Graph};

fn square_graph(edges: Vec<Edge>) -> Graph {
    Graph {
        nodes: vec![Point::new(0, 0), Point::new(5, 5), Point::new(2, 2), Point::new(5, 0)],
        edges,
    }
}

#[test]
fn a_star_takes_the_direct_edge() {
    let graph = square_graph(vec![Edge(0, 1), Edge(0, 2), Edge(0, 3), Edge(1, 2), Edge(1, 3)]);
    assert_eq!(vec![Point::new(0, 0), Point::new(5, 5)], graph.a_star(0, 1));
}

#[test]
fn a_star_goes_by_the_nearer_node_without_a_direct_edge() {
    let graph = square_graph(vec![Edge(0, 2), Edge(0, 3), Edge(1, 2), Edge(1, 3)]);
    assert_eq!(vec![Point::new(0, 0), Point::new(2, 2), Point::new(5, 5)], graph.a_star(0, 1));
}

#[test]
fn a_star_goes_by_the_nearer_node_whatever_the_order_of_the_edges() {
    let graph = square_graph(vec![Edge(1, 3), Edge(0, 3), Edge(2, 1), Edge(2, 0)]);
    assert_eq!(vec![Point::new(0, 0), Point::new(2, 2), Point::new(5, 5)], graph.a_star(0, 1));
    assert_eq!(vec![Point::new(5, 5), Point::new(2, 2), Point::new(0, 0)], graph.a_star(1, 0));
}

#[test]
fn a_star_without_a_way_is_empty() {
    let graph = square_graph(vec![Edge(0, 2), Edge(0, 3)]);
    assert_eq!(Vec::<Point>::new(), graph.a_star(0, 1));
    assert_eq!(Vec::<usize>::new(), graph.shortest_route(0, 1));
}

#[test]
fn a_star_from_a_node_to_itself_is_that_node() {
    let graph = square_graph(vec![Edge(0, 2), Edge(0, 3)]);
    assert_eq!(vec![Point::new(2, 2)], graph.a_star(2, 2));
    assert_eq!(vec![Point::new(5, 5)], graph.a_star(1, 1));
}

#[test]
fn a_star_prefers_many_short_steps_to_one_long_way_round() {
    // A row of nodes, and one node far off that is joined to both ends.
    let graph = Graph {
        nodes: vec![
            Point::new(0, 0),
            Point::new(10, 0),
            Point::new(20, 0),
            Point::new(30, 0),
            Point::new(15, 400),
        ],
        edges: vec![Edge(0, 4), Edge(4, 3), Edge(0, 1), Edge(1, 2), Edge(2, 3)],
    };
    assert_eq!(vec![0, 1, 2, 3], graph.shortest_route(0, 3));
    assert_eq!(vec![3, 2, 1, 0], graph.shortest_route(3, 0));
}

#[test]
fn a_star_finds_the_cheaper_of_two_ways_round() {
    // Round an obstacle by the north (cost 5 + 6 + 5) or the south
    // (cost 13 + 13).
    let graph = Graph {
        nodes: vec![
            Point::new(0, 0),
            Point::new(12, 0),
            Point::new(3, 4),
            Point::new(9, 4),
            Point::new(6, -12),
        ],
        edges: vec![Edge(0, 4), Edge(4, 1), Edge(0, 2), Edge(2, 3), Edge(3, 1)],
    };
    assert_eq!(vec![0, 2, 3, 1], graph.shortest_route(0, 1));
}

#[test]
fn shortest_route_passes_an_edge_either_way() {
    let graph = square_graph(vec![Edge(2, 0), Edge(1, 2)]);
    assert_eq!(vec![0, 2, 1], graph.shortest_route(0, 1));
}

#[test]
fn shortest_route_through_nodes_at_one_position() {
    let graph = Graph {
        nodes: vec![Point::new(0, 0), Point::new(0, 0), Point::new(3, 4)],
        edges: vec![Edge(0, 1), Edge(1, 0), Edge(1, 2), Edge(1, 1)],
    };
    assert_eq!(vec![0, 1, 2], graph.shortest_route(0, 2));
}

#[test]
fn neighbours_are_the_other_ends_of_the_edges() {
    let graph = square_graph(vec![Edge(0, 2), Edge(3, 0), Edge(1, 2), Edge(0, 0)]);
    assert_eq!(vec![2, 3, 0], graph.neighbours(0));
    assert_eq!(vec![2], graph.neighbours(1));
    assert_eq!(vec![0, 1], graph.neighbours(2));
}

#[test]
fn cost_is_the_length_rounded_up() {
    let graph = square_graph(vec![]);
    assert_eq!(0, graph.cost(0, 0));
    assert_eq!(8, graph.cost(0, 1));
    assert_eq!(3, graph.cost(0, 2));
    assert_eq!(5, graph.cost(0, 3));
    assert_eq!(5, graph.cost(3, 1));
    assert_eq!(8, graph.cost(1, 0));
}

#[test]
fn is_valid_tells_edges_between_nodes_in_bounds() {
    assert!(square_graph(vec![Edge(0, 3)]).is_valid());
    assert!(!square_graph(vec![Edge(0, 4)]).is_valid());
    let far = Graph { nodes: vec![Point::new(0, -500_001)], edges: vec![] };
    assert!(!far.is_valid());
}
