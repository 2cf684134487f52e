//! Casting a line against pieces of coast.

use crate::geometry::{
    cross, cross_2d, displacement, div_round, dot, dot_2d, lemma_product_bound,
    lemma_round_div_bound, round_div, Point, Vector, COORDINATE_MAX,
};
use crate::map::{edges_in_bounds, Edge};
use vstd::prelude::*;

verus! {

/// Where a line meets a piece of coast.
#[derive(Clone, Copy, Debug, PartialEq, Eq, Structural)]
pub struct Crossing {
    /// The meeting point, rounded to the lattice.
    pub point: Point,
    /// The distance of the meeting point from the start of the line is
    /// `num / den` times the length of the line's direction.
    pub num: i64,
    pub den: i64,
}

/// `v` without its sign.
pub open spec fn magnitude(v: int) -> int {
    if v < 0 {
        -v
    } else {
        v
    }
}

/// Where the line from `start` along `direction` meets `edge`, if it does.
///
/// The line and the edge are taken with their end points. With `strict` the
/// line ends where `direction` ends; without, it runs on both ways, and only
/// the edge is bounded. A line that runs along the edge meets it at the
/// edge's far end, provided that end lies within the span of `direction`
/// (and, with `strict`, the near end too). A `direction` of length zero
/// meets nothing.
pub open spec fn cast(edge: Edge, start: Point, direction: Vector, strict: bool) -> Option<
    Crossing,
> {
    let along = displacement(edge.0, edge.1);
    let to_edge = displacement(start, edge.0);
    let turn = cross(direction, along);
    if turn == 0 {
        let length = dot(direction, direction);
        let first = dot(to_edge, direction);
        let second = first + dot(along, direction);
        if length > 0 && cross(to_edge, direction) == 0 && 0 <= second <= length && (strict ==> 0
            <= first <= length) {
            Some(Crossing { point: edge.1, num: second as i64, den: length as i64 })
        } else {
            None
        }
    } else {
        let den = if turn > 0 {
            turn
        } else {
            -turn
        };
        let on_line = if turn > 0 {
            cross(to_edge, along)
        } else {
            -cross(to_edge, along)
        };
        let on_edge = if turn > 0 {
            cross(to_edge, direction)
        } else {
            -cross(to_edge, direction)
        };
        if 0 <= on_edge <= den && (strict ==> 0 <= on_line <= den) {
            Some(
                Crossing {
                    point: Point {
                        x: round_div(edge.0.x * den + on_edge * along.x, den) as i64,
                        y: round_div(edge.0.y * den + on_edge * along.y, den) as i64,
                    },
                    num: magnitude(on_line) as i64,
                    den: den as i64,
                },
            )
        } else {
            None
        }
    }
}

/// Whether `a` lies nearer to the start of the line than `b`.
pub open spec fn nearer(a: Crossing, b: Crossing) -> bool {
    a.num * b.den < b.num * a.den
}

/// The nearest meeting of the line with one of `edges`; of several at the
/// same distance, the one with the earliest edge.
pub open spec fn nearest_crossing(
    edges: Seq<Edge>,
    start: Point,
    direction: Vector,
    strict: bool,
) -> Option<Crossing>
    decreases edges.len(),
{
    if edges.len() == 0 {
        None
    } else {
        let before = nearest_crossing(edges.drop_last(), start, direction, strict);
        match cast(edges.last(), start, direction, strict) {
            None => before,
            Some(found) => match before {
                None => Some(found),
                Some(best) => if nearer(found, best) {
                    Some(found)
                } else {
                    Some(best)
                },
            },
        }
    }
}

/// Whether the line from `start` along `direction` meets none of `edges`.
pub open spec fn clear_of(edges: Seq<Edge>, start: Point, direction: Vector, strict: bool) -> bool {
    forall|k: int| 0 <= k < edges.len() ==> (#[trigger] cast(edges[k], start, direction, strict))
        is None
}

/// There is no nearest meeting exactly when the line meets no edge.
pub proof fn lemma_nearest_none(edges: Seq<Edge>, start: Point, direction: Vector, strict: bool)
    ensures
        nearest_crossing(edges, start, direction, strict) is None <==> clear_of(
            edges,
            start,
            direction,
            strict,
        ),
    decreases edges.len(),
{
    if edges.len() > 0 {
        let front = edges.drop_last();
        lemma_nearest_none(front, start, direction, strict);
        if clear_of(edges, start, direction, strict) {
            assert forall|k: int| 0 <= k < front.len() implies (#[trigger] cast(
                front[k],
                start,
                direction,
                strict,
            )) is None by {
                assert(front[k] == edges[k]);
            }
            assert(cast(edges[edges.len() - 1], start, direction, strict) is None);
        }
        if nearest_crossing(edges, start, direction, strict) is None {
            assert forall|k: int| 0 <= k < edges.len() implies (#[trigger] cast(
                edges[k],
                start,
                direction,
                strict,
            )) is None by {
                if k < front.len() {
                    assert(front[k] == edges[k]);
                }
            }
        }
    }
}

/// The nearest meeting is a meeting with one of the edges, and no edge is
/// met nearer to the start.
pub proof fn lemma_nearest_is_least(
    edges: Seq<Edge>,
    start: Point,
    direction: Vector,
    strict: bool,
)
    requires
        edges_in_bounds(edges),
        start.in_bounds(),
        direction.in_bounds(),
    ensures
        nearest_crossing(edges, start, direction, strict) matches Some(best) ==> {
            &&& best.den > 0
            &&& best.num >= 0
            &&& exists|k: int|
                0 <= k < edges.len() && #[trigger] cast(edges[k], start, direction, strict)
                    == Some(best)
            &&& forall|j: int|
                0 <= j < edges.len() ==> (#[trigger] cast(
                    edges[j],
                    start,
                    direction,
                    strict,
                ) matches Some(other) ==> !nearer(other, best))
        },
    decreases edges.len(),
{
    if edges.len() > 0 {
        let front = edges.drop_last();
        let last = edges.len() - 1;
        assert(forall|k: int| 0 <= k < front.len() ==> front[k] == edges[k]);
        assert(edges_in_bounds(front));
        lemma_nearest_is_least(front, start, direction, strict);
        lemma_nearest_none(front, start, direction, strict);
        lemma_cast_den_positive(edges[last], start, direction, strict);
        let before = nearest_crossing(front, start, direction, strict);
        let found = cast(edges[last], start, direction, strict);
        let result = nearest_crossing(edges, start, direction, strict);
        match found {
            None => {
                if let Some(best) = before {
                    let k = choose|k: int|
                        0 <= k < front.len() && #[trigger] cast(front[k], start, direction, strict)
                            == Some(best);
                    assert(cast(edges[k], start, direction, strict) == Some(best));
                    assert forall|j: int| 0 <= j < edges.len() implies (#[trigger] cast(
                        edges[j],
                        start,
                        direction,
                        strict,
                    ) matches Some(other) ==> !nearer(other, best)) by {
                        if j < last {
                            assert(front[j] == edges[j]);
                        }
                    }
                }
            },
            Some(f) => {
                match before {
                    None => {
                        assert(result == Some(f));
                        assert(cast(edges[last], start, direction, strict) == Some(f));
                        assert forall|j: int| 0 <= j < edges.len() implies (#[trigger] cast(
                            edges[j],
                            start,
                            direction,
                            strict,
                        ) matches Some(other) ==> !nearer(other, f)) by {
                            if j < last {
                                assert(front[j] == edges[j]);
                                assert(cast(front[j], start, direction, strict) is None);
                            }
                        }
                    },
                    Some(b) => {
                        let k = choose|k: int|
                            0 <= k < front.len() && #[trigger] cast(
                                front[k],
                                start,
                                direction,
                                strict,
                            ) == Some(b);
                        assert(cast(edges[k], start, direction, strict) == Some(b));
                        if nearer(f, b) {
                            assert(result == Some(f));
                            assert(cast(edges[last], start, direction, strict) == Some(f));
                            assert forall|j: int| 0 <= j < edges.len() implies (#[trigger] cast(
                                edges[j],
                                start,
                                direction,
                                strict,
                            ) matches Some(other) ==> !nearer(other, f)) by {
                                if j < last {
                                    assert(front[j] == edges[j]);
                                    if let Some(other) = cast(front[j], start, direction, strict) {
                                        lemma_cast_den_positive(
                                            front[j],
                                            start,
                                            direction,
                                            strict,
                                        );
                                        lemma_nearer_chain(other, b, f);
                                    }
                                }
                            }
                        } else {
                            assert(result == Some(b));
                            assert forall|j: int| 0 <= j < edges.len() implies (#[trigger] cast(
                                edges[j],
                                start,
                                direction,
                                strict,
                            ) matches Some(other) ==> !nearer(other, b)) by {
                                if j < last {
                                    assert(front[j] == edges[j]);
                                }
                            }
                        }
                    },
                }
            },
        }
    }
}

/// A meeting has a positive denominator and a distance that is not
/// negative.
pub proof fn lemma_cast_den_positive(edge: Edge, start: Point, direction: Vector, strict: bool)
    requires
        edge.0.in_bounds(),
        edge.1.in_bounds(),
        start.in_bounds(),
        direction.in_bounds(),
    ensures
        cast(edge, start, direction, strict) matches Some(found) ==> found.den > 0 && found.num
            >= 0,
{
    let along = displacement(edge.0, edge.1);
    let to_edge = displacement(start, edge.0);
    lemma_product_bound(direction.x as int, along.y as int, 1_000_000, 1_000_000);
    lemma_product_bound(direction.y as int, along.x as int, 1_000_000, 1_000_000);
    lemma_product_bound(direction.x as int, direction.x as int, 1_000_000, 1_000_000);
    lemma_product_bound(direction.y as int, direction.y as int, 1_000_000, 1_000_000);
    lemma_product_bound(to_edge.x as int, direction.x as int, 1_000_000, 1_000_000);
    lemma_product_bound(to_edge.y as int, direction.y as int, 1_000_000, 1_000_000);
    lemma_product_bound(along.x as int, direction.x as int, 1_000_000, 1_000_000);
    lemma_product_bound(along.y as int, direction.y as int, 1_000_000, 1_000_000);
    lemma_product_bound(to_edge.x as int, along.y as int, 1_000_000, 1_000_000);
    lemma_product_bound(to_edge.y as int, along.x as int, 1_000_000, 1_000_000);
}

/// If `b` is nearer than `a`, and `c` is not nearer than `a`, then `c` is
/// not nearer than `b`.
pub proof fn lemma_nearer_chain(c: Crossing, a: Crossing, b: Crossing)
    requires
        a.den > 0,
        b.den > 0,
        c.den > 0,
        a.num >= 0,
        b.num >= 0,
        c.num >= 0,
        nearer(b, a),
        !nearer(c, a),
    ensures
        !nearer(c, b),
{
    let (an, ad, bn, bd, cn, cd) = (
        a.num as int,
        a.den as int,
        b.num as int,
        b.den as int,
        c.num as int,
        c.den as int,
    );
    assert(cn * bd >= bn * cd) by (nonlinear_arith)
        requires
            ad > 0,
            bd > 0,
            cd > 0,
            an >= 0,
            bn >= 0,
            cn >= 0,
            bn * ad < an * bd,
            cn * ad >= an * cd,
    {
        assert(cn * ad * bd >= an * cd * bd);
        assert(bn * ad * cd <= an * bd * cd);
        assert(an * cd * bd == an * bd * cd);
        assert(cn * bd * ad >= bn * cd * ad);
    }
}

/// Where the line from `start` along `direction` meets `edge`, if it does.
pub fn cast_on_edge(edge: Edge, start: Point, direction: Vector, strict: bool) -> (hit: Option<
    Crossing,
>)
    requires
        edge.0.in_bounds(),
        edge.1.in_bounds(),
        start.in_bounds(),
        direction.in_bounds(),
    ensures
        hit == cast(edge, start, direction, strict),
        hit matches Some(found) ==> found.point.in_bounds() && 0 < found.den <= 2_000_000_000_000
            && 0 <= found.num <= 4_000_000_000_000,
{
    let along = edge.1.minus(&edge.0);
    let to_edge = edge.0.minus(&start);
    let turn = cross_2d(direction, along);
    if turn == 0 {
        let length = dot_2d(direction, direction);
        let first = dot_2d(to_edge, direction);
        let second = first + dot_2d(along, direction);
        if length > 0 && cross_2d(to_edge, direction) == 0 && 0 <= second && second <= length && (
        !strict || (0 <= first && first <= length)) {
            Some(Crossing { point: edge.1, num: second, den: length })
        } else {
            None
        }
    } else {
        let raw_line = cross_2d(to_edge, along);
        let raw_edge = cross_2d(to_edge, direction);
        let (den, on_line, on_edge) = if turn > 0 {
            (turn, raw_line, raw_edge)
        } else {
            (-turn, -raw_line, -raw_edge)
        };
        if 0 <= on_edge && on_edge <= den && (!strict || (0 <= on_line && on_line <= den)) {
            let num = if on_line < 0 {
                -on_line
            } else {
                on_line
            };
            proof {
                lemma_point_on_edge(edge.0.x as int, along.x as int, den as int, on_edge as int);
                lemma_point_on_edge(edge.0.y as int, along.y as int, den as int, on_edge as int);
                lemma_product_bound(
                    edge.0.x as int,
                    den as int,
                    COORDINATE_MAX as int,
                    2_000_000_000_000,
                );
                lemma_product_bound(
                    edge.0.y as int,
                    den as int,
                    COORDINATE_MAX as int,
                    2_000_000_000_000,
                );
                lemma_product_bound(on_edge as int, along.x as int, 2_000_000_000_000, 1_000_000);
                lemma_product_bound(on_edge as int, along.y as int, 2_000_000_000_000, 1_000_000);
            }
            let x = div_round(
                (edge.0.x as i128) * (den as i128) + (on_edge as i128) * (along.x as i128),
                den as i128,
            );
            let y = div_round(
                (edge.0.y as i128) * (den as i128) + (on_edge as i128) * (along.y as i128),
                den as i128,
            );
            Some(Crossing { point: Point { x: x as i64, y: y as i64 }, num, den })
        } else {
            None
        }
    }
}

/// A point `part / whole` of the way from `from` to `from + span` has a
/// coordinate in bounds when both ends have.
pub proof fn lemma_point_on_edge(from: int, span: int, whole: int, part: int)
    requires
        -COORDINATE_MAX <= from <= COORDINATE_MAX,
        -COORDINATE_MAX <= from + span <= COORDINATE_MAX,
        0 <= part <= whole,
        whole > 0,
    ensures
        -COORDINATE_MAX <= round_div(from * whole + part * span, whole) <= COORDINATE_MAX,
{
    let n = from * whole + part * span;
    assert(-(COORDINATE_MAX * whole) <= n <= COORDINATE_MAX * whole) by (nonlinear_arith)
        requires
            n == from * whole + part * span,
            -COORDINATE_MAX <= from <= COORDINATE_MAX,
            -COORDINATE_MAX <= from + span <= COORDINATE_MAX,
            0 <= part <= whole,
            whole > 0,
    {
        assert(n == from * (whole - part) + part * (from + span));
        assert(from * (whole - part) <= COORDINATE_MAX * (whole - part));
        assert(from * (whole - part) >= -COORDINATE_MAX * (whole - part));
        assert(part * (from + span) <= part * COORDINATE_MAX);
        assert(part * (from + span) >= part * (-COORDINATE_MAX));
    }
    lemma_round_div_bound(n, whole, COORDINATE_MAX as int);
}

/// Whether `a` lies nearer to the start of the line than `b`.
pub fn is_nearer(a: &Crossing, b: &Crossing) -> (closer: bool)
    requires
        0 < a.den <= 2_000_000_000_000,
        0 < b.den <= 2_000_000_000_000,
        0 <= a.num <= 4_000_000_000_000,
        0 <= b.num <= 4_000_000_000_000,
    ensures
        closer == nearer(*a, *b),
{
    proof {
        lemma_product_bound(a.num as int, b.den as int, 4_000_000_000_000, 2_000_000_000_000);
        lemma_product_bound(b.num as int, a.den as int, 4_000_000_000_000, 2_000_000_000_000);
    }
    (a.num as i128) * (b.den as i128) < (b.num as i128) * (a.den as i128)
}

/// The nearest meeting of the line from `start` along `direction` with one
/// of `edges`.
pub fn nearest_hit(edges: &Vec<Edge>, start: Point, direction: Vector, strict: bool) -> (hit:
    Option<Crossing>)
    requires
        edges_in_bounds(edges@),
        start.in_bounds(),
        direction.in_bounds(),
    ensures
        hit == nearest_crossing(edges@, start, direction, strict),
        hit matches Some(found) ==> found.point.in_bounds(),
{
    let mut best: Option<Crossing> = None;
    let mut k: usize = 0;
    while k < edges.len()
        invariant
            edges_in_bounds(edges@),
            start.in_bounds(),
            direction.in_bounds(),
            0 <= k <= edges@.len(),
            best == nearest_crossing(edges@.take(k as int), start, direction, strict),
            best matches Some(found) ==> found.point.in_bounds() && 0 < found.den
                <= 2_000_000_000_000 && 0 <= found.num <= 4_000_000_000_000,
        decreases edges@.len() - k,
    {
        proof {
            let next = edges@.take(k as int + 1);
            assert(next.drop_last() =~= edges@.take(k as int));
            assert(next.last() == edges@[k as int]);
        }
        match cast_on_edge(edges[k], start, direction, strict) {
            None => {},
            Some(found) => {
                match best {
                    None => {
                        best = Some(found);
                    },
                    Some(current) => {
                        if is_nearer(&found, &current) {
                            best = Some(found);
                        }
                    },
                }
            },
        }
        k += 1;
    }
    assert(edges@.take(edges@.len() as int) =~= edges@);
    best
}

} // verus!
