//! Why the coast of an island runs in closed rounds: in every point an even
//! number of pieces of coast end.

use crate::geometry::Point;
use crate::map::{
    island_boundary, island_edges, occurrences, occurs_once, same_as, same_edge, Edge,
};
use vstd::prelude::*;

verus! {

/// How many ends of `e` lie in `p`.
pub open spec fn ends_at(e: Edge, p: Point) -> nat {
    (if e.0 == p {
        1nat
    } else {
        0nat
    }) + (if e.1 == p {
        1nat
    } else {
        0nat
    })
}

/// How many ends of `edges` lie in `p`.
pub open spec fn degree(edges: Seq<Edge>, p: Point) -> nat
    decreases edges.len(),
{
    if edges.len() == 0 {
        0
    } else {
        degree(edges.drop_last(), p) + ends_at(edges.last(), p)
    }
}

/// How many of `edges` are the same piece of coast as `e`.
pub open spec fn count(edges: Seq<Edge>, e: Edge) -> nat
    decreases edges.len(),
{
    if edges.len() == 0 {
        0
    } else {
        count(edges.drop_last(), e) + if same_edge(edges.last(), e) {
            1nat
        } else {
            0nat
        }
    }
}

/// Whether no side occurs more than twice among the sides of the
/// triangles of `island`: no three triangles share a side.
pub open spec fn sides_shared_by_two(island: Seq<Point>) -> bool {
    forall|k: int|
        0 <= k < island_edges(island).len() ==> occurrences(
            island_edges(island),
            #[trigger] island_edges(island)[k],
        ) <= 2
}

/// The test "occurs exactly twice among `edges`".
pub open spec fn occurs_twice(edges: Seq<Edge>) -> spec_fn(Edge) -> bool {
    |e: Edge| count(edges, e) == 2
}

proof fn lemma_count_is_occurrences(edges: Seq<Edge>, e: Edge)
    ensures
        count(edges, e) == occurrences(edges, e),
    decreases edges.len(),
{
    if edges.len() == 0 {
        assert(edges.filter(same_as(e)).len() == 0) by {
            edges.lemma_filter_len(same_as(e));
        }
    } else {
        let front = edges.drop_last();
        lemma_count_is_occurrences(front, e);
        assert(edges =~= front.push(edges.last()));
        front.lemma_filter_push(edges.last(), same_as(e));
    }
}

proof fn lemma_count_same(edges: Seq<Edge>, a: Edge, b: Edge)
    requires
        same_edge(a, b),
    ensures
        count(edges, a) == count(edges, b),
    decreases edges.len(),
{
    if edges.len() > 0 {
        lemma_count_same(edges.drop_last(), a, b);
    }
}

proof fn lemma_count_positive(edges: Seq<Edge>, at: int)
    requires
        0 <= at < edges.len(),
    ensures
        count(edges, edges[at]) >= 1,
    decreases edges.len(),
{
    if at < edges.len() - 1 {
        lemma_count_positive(edges.drop_last(), at);
    }
}

proof fn lemma_count_witness(edges: Seq<Edge>, e: Edge) -> (at: int)
    requires
        count(edges, e) >= 1,
    ensures
        0 <= at < edges.len(),
        same_edge(edges[at], e),
    decreases edges.len(),
{
    if same_edge(edges.last(), e) {
        edges.len() - 1
    } else {
        lemma_count_witness(edges.drop_last(), e)
    }
}

proof fn lemma_remove(edges: Seq<Edge>, at: int, e: Edge, p: Point)
    requires
        0 <= at < edges.len(),
    ensures
        count(edges.remove(at), e) + (if same_edge(edges[at], e) {
            1nat
        } else {
            0nat
        }) == count(edges, e),
        degree(edges.remove(at), p) + ends_at(edges[at], p) == degree(edges, p),
    decreases edges.len(),
{
    if at == edges.len() - 1 {
        assert(edges.remove(at) =~= edges.drop_last());
    } else {
        let front = edges.drop_last();
        lemma_remove(front, at, e, p);
        assert(edges.remove(at).drop_last() =~= front.remove(at));
        assert(edges.remove(at).last() == edges.last());
    }
}

/// In every point an even number of ends lie of edges that come in pairs.
proof fn lemma_pairs_even(edges: Seq<Edge>, p: Point)
    requires
        forall|k: int| 0 <= k < edges.len() ==> count(edges, #[trigger] edges[k]) == 2,
    ensures
        degree(edges, p) % 2 == 0,
    decreases edges.len(),
{
    if edges.len() > 0 {
        let last = edges.last();
        let front = edges.drop_last();
        assert(count(edges, edges[edges.len() - 1]) == 2);
        assert(count(front, last) == 1);
        let at = lemma_count_witness(front, last);
        let rest = front.remove(at);
        lemma_remove(front, at, last, p);
        assert(count(rest, last) == 0);
        assert forall|k: int| 0 <= k < rest.len() implies count(rest, #[trigger] rest[k])
            == 2 by {
            let x = rest[k];
            let from = if k < at {
                k
            } else {
                k + 1
            };
            assert(front[from] == x);
            assert(edges[from] == x);
            assert(count(edges, edges[from]) == 2);
            lemma_remove(front, at, x, p);
            if same_edge(x, last) {
                lemma_count_positive(rest, k);
                lemma_count_same(rest, x, last);
            }
            if same_edge(front[at], x) {
                assert(same_edge(x, last));
            }
        }
        lemma_pairs_even(rest, p);
        assert(ends_at(front[at], p) == ends_at(last, p));
    }
}

proof fn lemma_split(edges: Seq<Edge>, whole: Seq<Edge>, p: Point)
    requires
        forall|k: int|
            0 <= k < edges.len() ==> 1 <= count(whole, #[trigger] edges[k]) <= 2,
    ensures
        degree(edges.filter(occurs_once(whole)), p) + degree(edges.filter(occurs_twice(whole)), p)
            == degree(edges, p),
    decreases edges.len(),
{
    if edges.len() == 0 {
        edges.lemma_filter_len(occurs_once(whole));
        edges.lemma_filter_len(occurs_twice(whole));
    } else {
        let front = edges.drop_last();
        let last = edges.last();
        assert forall|k: int| 0 <= k < front.len() implies 1 <= count(whole, #[trigger] front[k])
            <= 2 by {
            assert(front[k] == edges[k]);
        }
        lemma_split(front, whole, p);
        assert(edges =~= front.push(last));
        front.lemma_filter_push(last, occurs_once(whole));
        front.lemma_filter_push(last, occurs_twice(whole));
        lemma_count_is_occurrences(whole, last);
        assert(1 <= count(whole, edges[edges.len() - 1]) <= 2);
        if count(whole, last) == 1 {
            assert(front.filter(occurs_once(whole)).push(last).drop_last() =~= front.filter(
                occurs_once(whole),
            ));
        } else {
            assert(front.filter(occurs_twice(whole)).push(last).drop_last() =~= front.filter(
                occurs_twice(whole),
            ));
        }
    }
}

proof fn lemma_count_in_pairs(edges: Seq<Edge>, whole: Seq<Edge>, e: Edge)
    requires
        count(whole, e) == 2,
    ensures
        count(edges.filter(occurs_twice(whole)), e) == count(edges, e),
    decreases edges.len(),
{
    if edges.len() == 0 {
        edges.lemma_filter_len(occurs_twice(whole));
    } else {
        let front = edges.drop_last();
        let last = edges.last();
        lemma_count_in_pairs(front, whole, e);
        assert(edges =~= front.push(last));
        front.lemma_filter_push(last, occurs_twice(whole));
        if same_edge(last, e) {
            lemma_count_same(whole, last, e);
        }
        if count(whole, last) == 2 {
            assert(front.filter(occurs_twice(whole)).push(last).drop_last() =~= front.filter(
                occurs_twice(whole),
            ));
        }
    }
}

proof fn lemma_triangles_even(island: Seq<Point>, triangles: int, p: Point)
    requires
        island.len() % 3 == 0,
        0 <= triangles <= island.len() / 3,
    ensures
        degree(island_edges(island).take(3 * triangles), p) % 2 == 0,
    decreases triangles,
{
    let edges = island_edges(island);
    if triangles > 0 {
        lemma_triangles_even(island, triangles - 1, p);
        let t = triangles - 1;
        let before = edges.take(3 * t);
        let one = edges.take(3 * t + 1);
        let two = edges.take(3 * t + 2);
        let all = edges.take(3 * t + 3);
        assert(one.drop_last() =~= before);
        assert(two.drop_last() =~= one);
        assert(all.drop_last() =~= two);
        let a = island[3 * t];
        let b = island[3 * t + 1];
        let c = island[3 * t + 2];
        assert(one.last() == edges[3 * t]);
        assert(two.last() == edges[3 * t + 1]);
        assert(all.last() == edges[3 * t + 2]);
        assert(edges[3 * t] == Edge(a, b));
        assert(edges[3 * t + 1] == Edge(b, c));
        assert(edges[3 * t + 2] == Edge(c, a));
        assert(degree(one, p) == degree(before, p) + ends_at(Edge(a, b), p));
        assert(degree(two, p) == degree(one, p) + ends_at(Edge(b, c), p));
        assert(degree(all, p) == degree(two, p) + ends_at(Edge(c, a), p));
        let corners = (if a == p {
            1nat
        } else {
            0nat
        }) + (if b == p {
            1nat
        } else {
            0nat
        }) + (if c == p {
            1nat
        } else {
            0nat
        });
        assert(degree(all, p) == degree(before, p) + 2 * corners);
        assert(all == edges.take(3 * triangles));
    }
}

/// Where no three triangles of an island share a side, an even number of
/// pieces of its coast end in every point: the coast runs in closed
/// rounds.
pub proof fn lemma_coast_runs_in_rounds(island: Seq<Point>, p: Point)
    requires
        island.len() % 3 == 0,
        sides_shared_by_two(island),
    ensures
        degree(island_boundary(island), p) % 2 == 0,
{
    let edges = island_edges(island);
    let pairs = edges.filter(occurs_twice(edges));
    assert forall|k: int| 0 <= k < edges.len() implies 1 <= count(edges, #[trigger] edges[k])
        <= 2 by {
        lemma_count_positive(edges, k);
        lemma_count_is_occurrences(edges, edges[k]);
    }
    lemma_split(edges, edges, p);
    assert forall|k: int| 0 <= k < pairs.len() implies count(pairs, #[trigger] pairs[k])
        == 2 by {
        edges.lemma_filter_pred(occurs_twice(edges), k);
        lemma_count_in_pairs(edges, edges, pairs[k]);
    }
    lemma_pairs_even(pairs, p);
    lemma_triangles_even(island, island.len() as int / 3, p);
    assert(edges.take(edges.len() as int) =~= edges);
}

} // verus!
