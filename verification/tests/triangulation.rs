use age_of_sail::geometry::Point;
use age_of_sail::map::WorldMap;
use age_of_sail::triangulate::BuildError;

fn twice_area(a: Point, b: Point, c: Point) -> i64 {
    (b.x - a.x) * (c.y - a.y) - (b.y - a.y) * (c.x - a.x)
}

fn assert_counter_clockwise(island: &Vec<Point>) {
    assert_eq!(0, island.len() % 3);
    for triangle in island.chunks(3) {
        assert!(twice_area(triangle[0], triangle[1], triangle[2]) > 0, "{:?}", triangle);
    }
}

#[test]
fn new_keeps_a_counter_clockwise_triangle() {
    let ring = vec![Point::new(50, 0), Point::new(100, -25), Point::new(100, 25)];
    let map = WorldMap::new(vec![ring.clone()], 1).unwrap();
    assert_eq!(vec![ring], map.islands);
    assert_eq!(1, map.margin);
}

#[test]
fn new_turns_a_clockwise_triangle_round() {
    let map = WorldMap::new(
        vec![vec![Point::new(50, 0), Point::new(100, 25), Point::new(100, -25)]],
        1,
    )
    .unwrap();
    assert_eq!(
        vec![vec![Point::new(100, -25), Point::new(100, 25), Point::new(50, 0)]],
        map.islands
    );
}

#[test]
fn new_drops_a_triangle_without_area() {
    let map =
        WorldMap::new(vec![vec![Point::new(0, 0), Point::new(5, 5), Point::new(10, 10)]], 1)
            .unwrap();
    assert_eq!(vec![Vec::<Point>::new()], map.islands);
}

#[test]
fn new_cuts_a_square_in_two() {
    let map = WorldMap::new(
        vec![vec![Point::new(0, 0), Point::new(10, 0), Point::new(10, 10), Point::new(0, 10)]],
        1,
    )
    .unwrap();
    assert_eq!(
        vec![vec![
            Point::new(0, 10),
            Point::new(0, 0),
            Point::new(10, 0),
            Point::new(10, 0),
            Point::new(10, 10),
            Point::new(0, 10),
        ]],
        map.islands
    );
    assert!(map.on_land(Point::new(5, 5)));
    assert!(!map.on_land(Point::new(11, 5)));
}

#[test]
fn new_gives_one_island_for_each_ring() {
    let map = WorldMap::new(
        vec![
            vec![Point::new(0, 0), Point::new(10, 0), Point::new(10, 10), Point::new(0, 10)],
            vec![Point::new(50, 0), Point::new(100, -25), Point::new(100, 25)],
        ],
        5,
    )
    .unwrap();
    assert_eq!(2, map.islands.len());
    assert_eq!(6, map.islands[0].len());
    assert_eq!(3, map.islands[1].len());
    assert!(map.is_valid());
}

#[test]
fn new_winds_every_triangle_counter_clockwise() {
    let rings = vec![
        vec![Point::new(0, 0), Point::new(0, 10), Point::new(10, 10), Point::new(10, 0)],
        vec![
            Point::new(0, 0),
            Point::new(20, 0),
            Point::new(20, 20),
            Point::new(10, 5),
            Point::new(0, 20),
        ],
        vec![
            Point::new(0, 0),
            Point::new(30, 10),
            Point::new(40, 40),
            Point::new(10, 30),
            Point::new(-10, 15),
        ],
    ];
    let map = WorldMap::new(rings.clone(), 1).unwrap();
    for (island, ring) in map.islands.iter().zip(rings.iter()) {
        assert_counter_clockwise(island);
        assert!(island.iter().all(|corner| ring.contains(corner)));
    }
}

#[test]
fn new_refuses_a_ring_without_points() {
    let built = WorldMap::new(vec![vec![Point::new(0, 0)], vec![]], 1);
    assert_eq!(Some(BuildError::EmptyRing), built.err());
}

#[test]
fn new_refuses_a_point_out_of_bounds() {
    let built = WorldMap::new(
        vec![vec![Point::new(0, 0), Point::new(500_001, 0), Point::new(0, 10)]],
        1,
    );
    assert_eq!(Some(BuildError::OutOfBounds), built.err());
}

#[test]
fn new_refuses_a_margin_out_of_bounds() {
    assert_eq!(Some(BuildError::OutOfBounds), WorldMap::new(vec![], -1).err());
    assert_eq!(Some(BuildError::OutOfBounds), WorldMap::new(vec![], 1_001).err());
    assert!(WorldMap::new(vec![], 1_000).is_ok());
}

#[test]
fn new_tells_an_empty_ring_before_a_point_out_of_bounds() {
    let built = WorldMap::new(vec![vec![Point::new(600_000, 0)], vec![]], 1);
    assert_eq!(Some(BuildError::EmptyRing), built.err());
}

#[test]
fn new_gives_nothing_for_a_ring_of_two_points() {
    let map = WorldMap::new(vec![vec![Point::new(0, 0), Point::new(5, 5)]], 1).unwrap();
    assert_eq!(vec![Vec::<Point>::new()], map.islands);
}

#[test]
fn new_cuts_an_arrow_into_triangles_of_its_own_corners() {
    // An outline with a corner that points inwards.
    let ring = vec![
        Point::new(0, 0),
        Point::new(20, 0),
        Point::new(20, 20),
        Point::new(10, 5),
        Point::new(0, 20),
    ];
    let map = WorldMap::new(vec![ring.clone()], 1).unwrap();
    let island = &map.islands[0];
    assert_counter_clockwise(island);
    assert!(island.len() <= 3 * ring.len());
    assert!(island.iter().all(|corner| ring.contains(corner)));
    // No triangle reaches into the notch.
    assert!(!map.on_land(Point::new(10, 15)));
}

#[test]
fn new_gives_the_same_triangles_for_the_same_ring() {
    let ring = vec![
        Point::new(0, 0),
        Point::new(30, 10),
        Point::new(40, 40),
        Point::new(10, 30),
        Point::new(-10, 15),
    ];
    let first = WorldMap::new(vec![ring.clone()], 1).unwrap();
    let second = WorldMap::new(vec![ring.clone(), ring], 1).unwrap();
    assert_eq!(first.islands[0], second.islands[0]);
    assert_eq!(first.islands[0], second.islands[1]);
}

fn ring_of(corners: &[(i64, i64)]) -> Vec<Point> {
    corners.iter().map(|&(x, y)| Point::new(x, y)).collect()
}

// Twice the area that the outline goes round, without sign.
fn twice_area_of_ring(ring: &[Point]) -> i64 {
    let n = ring.len();
    let sum: i64 = (0..n)
        .map(|i| ring[i].x * ring[(i + 1) % n].y - ring[(i + 1) % n].x * ring[i].y)
        .sum();
    sum.abs()
}

fn assert_fills(corners: &[(i64, i64)]) {
    let ring = ring_of(corners);
    let map = WorldMap::new(vec![ring.clone()], 1).unwrap();
    let island = &map.islands[0];
    assert_counter_clockwise(island);
    assert_eq!(ring.len() - 2, island.len() / 3, "triangles of {:?}", corners);
    let covered: i64 = island.chunks(3).map(|t| twice_area(t[0], t[1], t[2])).sum();
    assert_eq!(twice_area_of_ring(&ring), covered, "area of {:?}", corners);
}

#[test]
fn new_fills_a_pentagon_with_three_triangles() {
    assert_fills(&[(0, 0), (30, 10), (40, 40), (10, 30), (-10, 15)]);
}

#[test]
fn new_fills_a_hexagon_and_an_octagon() {
    assert_fills(&[(10, 0), (20, 0), (30, 10), (20, 20), (10, 20), (0, 10)]);
    assert_fills(&[(10, 0), (20, 0), (30, 10), (30, 20), (20, 30), (10, 30), (0, 20), (0, 10)]);
}

#[test]
fn new_fills_an_outline_with_a_corner_that_points_inwards() {
    assert_fills(&[(0, 0), (20, 0), (20, 20), (10, 5), (0, 20)]);
    assert_fills(&[(0, 0), (20, 0), (20, 10), (10, 10), (10, 20), (0, 20)]);
    assert_fills(&[(0, 0), (30, 0), (30, 30), (20, 30), (15, 10), (10, 30), (0, 30)]);
}

#[test]
fn new_fills_a_comb_and_a_star() {
    assert_fills(&[
        (0, 0),
        (50, 0),
        (50, 30),
        (40, 30),
        (40, 10),
        (30, 10),
        (30, 30),
        (20, 30),
        (20, 10),
        (10, 10),
        (10, 30),
        (0, 30),
    ]);
    assert_fills(&[
        (0, 30),
        (10, 10),
        (30, 10),
        (15, 0),
        (20, -20),
        (0, -8),
        (-20, -20),
        (-15, 0),
        (-30, 10),
        (-10, 10),
    ]);
}

#[test]
fn new_fills_an_outline_that_runs_clockwise() {
    assert_fills(&[(0, 0), (0, 10), (10, 10), (10, 0)]);
    assert_fills(&[(0, 20), (10, 5), (20, 20), (20, 0), (0, 0)]);
}

#[test]
fn new_fills_outlines_that_wind() {
    // A spiral.
    assert_fills(&[
        (0, 0),
        (60, 0),
        (60, 60),
        (0, 60),
        (0, 20),
        (40, 20),
        (40, 40),
        (20, 40),
        (20, 30),
        (30, 30),
        (30, 25),
        (10, 25),
        (10, 50),
        (50, 50),
        (50, 10),
        (0, 10),
    ]);
    // A band that goes up and down.
    assert_fills(&[
        (0, 0),
        (10, 10),
        (20, 0),
        (30, 10),
        (40, 0),
        (40, 30),
        (30, 20),
        (20, 30),
        (10, 20),
        (0, 30),
    ]);
    // A cross.
    assert_fills(&[
        (10, 0),
        (20, 0),
        (20, 10),
        (30, 10),
        (30, 20),
        (20, 20),
        (20, 30),
        (10, 30),
        (10, 20),
        (0, 20),
        (0, 10),
        (10, 10),
    ]);
}

#[test]
fn new_fills_outlines_at_the_limits() {
    // A point in the middle of a side.
    assert_fills(&[(0, 0), (10, 0), (20, 0), (20, 10), (0, 10)]);
    // A sliver.
    assert_fills(&[(0, 0), (100, 1), (200, 0), (100, 2)]);
    // Nearly as wide as the bounds.
    assert_fills(&[
        (-400_000, -400_000),
        (400_000, -400_000),
        (400_000, 400_000),
        (0, 10),
        (-400_000, 400_000),
    ]);
}

#[test]
fn new_gives_no_triangle_that_crosses_the_outline() {
    // The outline crosses itself.
    let map = WorldMap::new(
        vec![vec![Point::new(0, 0), Point::new(10, 10), Point::new(0, 10), Point::new(10, 0)]],
        1,
    )
    .unwrap();
    assert_eq!(vec![Vec::<Point>::new()], map.islands);
}
