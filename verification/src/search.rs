//! The search for the shortest route through a graph.

use crate::frontier::{frontier_is_empty, frontier_new, frontier_pop, frontier_push, queued};
use crate::geometry::Point;
use crate::graph::Graph;
use crate::route::STEP_MAX;
use vstd::prelude::*;

verus! {

/// What a search knows at one moment.
pub struct Search {
    /// The least cost found so far of a way from the start to each node;
    /// `None` for a node that was not reached yet.
    pub cost: Seq<Option<u64>>,
    /// The node from which each node was reached at that cost.
    pub parent: Seq<Option<usize>>,
    /// A way from the start to each node that was reached, at that cost.
    pub walks: Seq<Seq<int>>,
}

impl Search {
    /// Whether the node `v` was reached.
    pub open spec fn seen(self, v: int) -> bool {
        0 <= v < self.cost.len() && self.cost[v] is Some
    }

    /// The least cost found so far of a way to `v`.
    pub open spec fn so_far(self, v: int) -> int {
        self.cost[v]->0 as int
    }

    /// Whether the node `v` was reached and left: it is not among the
    /// nodes `open` that wait.
    pub open spec fn closed(self, open: Map<usize, i64>, v: int) -> bool {
        self.seen(v) && !open.contains_key(v as usize)
    }

    /// The search after a way to `next` by `current` at `new_cost` was
    /// found.
    pub open spec fn with(self, current: int, next: int, new_cost: u64) -> Search {
        Search {
            cost: self.cost.update(next, Some(new_cost)),
            parent: self.parent.update(next, Some(current as usize)),
            walks: self.walks.update(next, self.walks[current].push(next)),
        }
    }
}

/// The search that knows these things.
pub open spec fn search_of(
    cost: Seq<Option<u64>>,
    parent: Seq<Option<usize>>,
    walks: Seq<Seq<int>>,
) -> Search {
    Search { cost, parent, walks }
}

/// What a cost counts in the measure of the work that is left: itself, or
/// `big` where there is none yet.
pub open spec fn weight(cost: Option<u64>, big: int) -> int {
    match cost {
        Some(c) => c as int,
        None => big,
    }
}

/// The sum of the weights of `cost`.
pub open spec fn total(cost: Seq<Option<u64>>, big: int) -> int
    decreases cost.len(),
{
    if cost.len() == 0 {
        0
    } else {
        total(cost.drop_last(), big) + weight(cost.last(), big)
    }
}

/// A sum of weights is not negative.
pub proof fn lemma_total_positive(cost: Seq<Option<u64>>, big: int)
    requires
        big >= 0,
    ensures
        total(cost, big) >= 0,
    decreases cost.len(),
{
    if cost.len() > 0 {
        lemma_total_positive(cost.drop_last(), big);
    }
}

/// Changing one cost changes the sum of the weights by the difference.
pub proof fn lemma_total_update(cost: Seq<Option<u64>>, at: int, new: Option<u64>, big: int)
    requires
        0 <= at < cost.len(),
    ensures
        total(cost.update(at, new), big) == total(cost, big) - weight(cost[at], big) + weight(
            new,
            big,
        ),
    decreases cost.len(),
{
    let changed = cost.update(at, new);
    if at == cost.len() - 1 {
        assert(changed.drop_last() =~= cost.drop_last());
    } else {
        lemma_total_update(cost.drop_last(), at, new, big);
        assert(changed.drop_last() =~= cost.drop_last().update(at, new));
    }
}

impl Graph {
    /// Whether the node number `j` of `walk` was reached at no more than
    /// the first `j` steps of `walk` cost.
    pub open spec fn dominated(&self, s: Search, walk: Seq<int>, j: int) -> bool {
        s.seen(walk[j]) && s.so_far(walk[j]) <= self.route_cost(walk.take(j + 1))
    }

    /// Whether the way kept for the node `v` leads from `start` to `v` at
    /// the cost kept for `v`, passes no node twice, and reaches no node
    /// cheaper than the search did.
    pub open spec fn walk_ok(&self, s: Search, start: int, v: int) -> bool {
        let walk = s.walks[v];
        &&& self.connects(walk, start, v)
        &&& self.route_cost(walk) == s.so_far(v)
        &&& walk.no_duplicates()
        &&& forall|j: int| 0 <= j < walk.len() ==> #[trigger] self.dominated(s, walk, j)
    }

    /// Whether the node kept for `v` as the one it was reached from is a
    /// neighbour that was reached, at a cost that with the step to `v` is
    /// no more than the cost of `v`; and, where it is that cost, the way to
    /// `v` is the way to that node and the step.
    pub open spec fn parent_ok(&self, s: Search, start: int, v: int) -> bool {
        if v == start {
            s.parent[v] is None && s.so_far(v) == 0
        } else {
            &&& s.parent[v] matches Some(p)
            &&& s.seen(p as int)
            &&& self.adjacent(p as int, v)
            &&& s.so_far(p as int) + self.step_cost(p as int, v) <= s.so_far(v)
            &&& (s.so_far(p as int) + self.step_cost(p as int, v) == s.so_far(v) ==> s.walks[v]
                == s.walks[p as int].push(v))
        }
    }

    /// What holds of the nodes that were reached.
    #[verifier::opaque]
    pub open spec fn tree_ok(&self, s: Search, start: int) -> bool {
        &&& s.cost.len() == self.nodes@.len()
        &&& s.parent.len() == self.nodes@.len()
        &&& s.walks.len() == self.nodes@.len()
        &&& s.seen(start)
        &&& forall|v: int| #[trigger]
            s.seen(v) ==> self.walk_ok(s, start, v) && self.parent_ok(s, start, v)
    }

    /// Whether every node that waits in `open` was reached, and waits at
    /// the priority that is the cost of the way to it and of the straight
    /// way from it to `end`, negated.
    pub open spec fn open_ok(&self, s: Search, open: Map<usize, i64>, end: int) -> bool {
        &&& open.dom().finite()
        &&& forall|v: usize| #[trigger]
            open.contains_key(v) ==> s.seen(v as int) && open[v] == -(s.so_far(v as int)
                + self.step_cost(v as int, end))
    }

    /// Whether `w` was reached at no more than the cost of `u` and the step
    /// from `u` to `w`.
    pub open spec fn relaxed(&self, s: Search, u: int, w: int) -> bool {
        s.seen(w) && s.so_far(w) <= s.so_far(u) + self.step_cost(u, w)
    }

    /// Whether every neighbour of every node that was left, but for
    /// `current`, was reached at no more than the cost by that node.
    pub open spec fn settled(&self, s: Search, open: Map<usize, i64>, current: int) -> bool {
        forall|u: int, w: int|
            s.closed(open, u) && u != current && 0 <= w < self.nodes@.len() && self.adjacent(u, w)
                ==> #[trigger] self.relaxed(s, u, w)
    }

    /// What is known of a node that was reached.
    pub proof fn lemma_tree(&self, s: Search, start: int, v: int)
        requires
            self.tree_ok(s, start),
            s.seen(v),
        ensures
            self.walk_ok(s, start, v),
            self.parent_ok(s, start, v),
            s.seen(start),
            s.cost.len() == self.nodes@.len(),
            s.parent.len() == self.nodes@.len(),
            s.walks.len() == self.nodes@.len(),
    {
        reveal(Graph::tree_ok);
    }

    /// A node that was reached was reached at the cost of a way that
    /// passes no node twice.
    pub proof fn lemma_cost_bound(&self, s: Search, start: int, v: int)
        requires
            self.wf(),
            self.tree_ok(s, start),
            s.seen(v),
        ensures
            0 <= s.so_far(v) <= (self.nodes@.len() - 1) * STEP_MAX,
    {
        let walk = s.walks[v];
        self.lemma_tree(s, start, v);
        self.lemma_route_length(walk);
        self.lemma_route_cost_bounds(walk);
        assert((walk.len() - 1) * STEP_MAX <= (self.nodes@.len() - 1) * STEP_MAX)
            by (nonlinear_arith)
            requires
                1 <= walk.len() <= self.nodes@.len(),
        ;
    }

    /// A cheaper way to `next` by `current` keeps what holds of the
    /// search.
    pub proof fn lemma_relax(
        &self,
        s: Search,
        open: Map<usize, i64>,
        start: int,
        end: int,
        current: int,
        next: int,
        new_cost: u64,
    )
        requires
            self.wf(),
            0 <= start < self.nodes@.len(),
            0 <= end < self.nodes@.len(),
            0 <= next < self.nodes@.len(),
            self.tree_ok(s, start),
            self.open_ok(s, open, end),
            self.settled(s, open, current),
            s.seen(current),
            self.adjacent(current, next),
            new_cost == s.so_far(current) + self.step_cost(current, next),
            !s.seen(next) || new_cost < s.so_far(next),
        ensures
            next != current,
            next != start,
            new_cost <= (self.nodes@.len() - 1) * STEP_MAX,
            ({
                let s2 = s.with(current, next, new_cost);
                let open2 = open.insert(
                    next as usize,
                    (-(new_cost + self.step_cost(next, end))) as i64,
                );
                &&& self.tree_ok(s2, start)
                &&& self.open_ok(s2, open2, end)
                &&& self.settled(s2, open2, current)
                &&& self.relaxed(s2, current, next)
                &&& forall|v: int| #[trigger] s.seen(v) ==> s2.seen(v) && s2.so_far(v) <= s.so_far(v)
            }),
    {
        reveal(Graph::tree_ok);
        let step = self.step_cost(current, next);
        let h = self.step_cost(next, end);
        self.lemma_step_cost(current, next);
        self.lemma_step_cost(current, current);
        self.lemma_step_cost(next, end);
        let priority = (-(new_cost + h)) as i64;
        let s2 = s.with(current, next, new_cost);
        let open2 = open.insert(next as usize, priority);
        let walk = s.walks[current];
        let longer = walk.push(next);
        assert(self.walk_ok(s, start, current) && self.parent_ok(s, start, current));
        assert(self.walk_ok(s, start, start) && self.parent_ok(s, start, start));
        self.lemma_cost_bound(s, start, current);
        // The node is neither the one it is reached by nor the start.
        if next == current {
            assert(false);
        }
        if next == start {
            assert(false);
        }
        // The new way is a way that passes no node twice.
        self.lemma_route_push(walk, next);
        assert forall|j: int| 0 <= j < walk.len() implies walk[j] != next by {
            assert(self.dominated(s, walk, j));
            self.lemma_route_rest(walk, j);
        }
        assert(longer.no_duplicates());
        self.lemma_route_length(longer);
        self.lemma_route_cost_bounds(longer);
        assert((longer.len() - 1) * STEP_MAX <= (self.nodes@.len() - 1) * STEP_MAX)
            by (nonlinear_arith)
            requires
                1 <= longer.len() <= self.nodes@.len(),
        ;
        assert(priority == -(new_cost + h));
        assert forall|v: int| #[trigger] s.seen(v) implies s2.seen(v) && s2.so_far(v) <= s.so_far(
            v,
        ) by {}
        // What holds of the nodes that were reached.
        assert forall|v: int| #[trigger] s2.seen(v) implies self.walk_ok(s2, start, v)
            && self.parent_ok(s2, start, v) by {
            if v == next {
                assert forall|j: int| 0 <= j < longer.len() implies #[trigger] self.dominated(
                    s2,
                    longer,
                    j,
                ) by {
                    if j < walk.len() {
                        assert(self.dominated(s, walk, j));
                        assert(longer.take(j + 1) =~= walk.take(j + 1));
                        assert(s.seen(walk[j]));
                    } else {
                        assert(longer.take(j + 1) =~= longer);
                    }
                }
                assert(s2.walks[current] == walk);
            } else {
                assert(s.seen(v));
                assert(self.walk_ok(s, start, v) && self.parent_ok(s, start, v));
                let kept = s.walks[v];
                assert forall|j: int| 0 <= j < kept.len() implies #[trigger] self.dominated(
                    s2,
                    kept,
                    j,
                ) by {
                    assert(self.dominated(s, kept, j));
                    assert(s.seen(kept[j]));
                }
                if v != start {
                    let p = s.parent[v]->0 as int;
                    assert(s.seen(p));
                    if p == next {
                        assert(s2.so_far(p) < s.so_far(p));
                    }
                }
            }
        }
        // What holds of the nodes that wait.
        assert forall|v: usize| #[trigger] open2.contains_key(v) implies s2.seen(v as int)
            && open2[v] == -(s2.so_far(v as int) + self.step_cost(v as int, end)) by {
            if v != next {
                assert(open.contains_key(v));
            }
        }
        // What holds of the nodes that were left.
        assert forall|u: int, w: int|
            s2.closed(open2, u) && u != current && 0 <= w < self.nodes@.len() && self.adjacent(
                u,
                w,
            ) implies #[trigger] self.relaxed(s2, u, w) by {
            assert(u != next);
            assert(s.closed(open, u));
            assert(self.relaxed(s, u, w));
            assert(s.seen(w));
        }
    }

    /// Along a way from the start whose nodes before the place `j` were
    /// all left, the node at `j` was reached at no more than the way to it
    /// costs.
    pub proof fn lemma_reach(
        &self,
        s: Search,
        open: Map<usize, i64>,
        start: int,
        route: Seq<int>,
        j: int,
    )
        requires
            self.wf(),
            self.tree_ok(s, start),
            self.settled(s, open, -1),
            self.is_route(route),
            route[0] == start,
            0 <= j < route.len(),
            forall|i: int| 0 <= i < j ==> s.closed(open, #[trigger] route[i]),
        ensures
            s.seen(route[j]),
            s.so_far(route[j]) <= self.route_cost(route.take(j + 1)),
        decreases j,
    {
        if j == 0 {
            assert(s.seen(start)) by {
                reveal(Graph::tree_ok);
            }
            self.lemma_tree(s, start, start);
            assert(route.take(1).len() == 1);
        } else {
            self.lemma_reach(s, open, start, route, j - 1);
            let before = route[j - 1];
            assert(s.closed(open, before));
            assert(self.linked(route, j - 1));
            assert(0 <= route[j] < self.nodes@.len());
            assert(self.relaxed(s, before, route[j]));
            let front = route.take(j + 1);
            assert(front.drop_last() =~= route.take(j));
            assert(front[front.len() - 2] == before);
            assert(front[front.len() - 1] == route[j]);
        }
    }

    /// A node that waits at no higher priority than `end` was reached at a
    /// cost that, with the straight way from it to `end`, is at least the
    /// cost at which `end` was reached.
    pub proof fn lemma_priority(&self, s: Search, open: Map<usize, i64>, end: int, here: int)
        requires
            self.wf(),
            0 <= end < self.nodes@.len(),
            0 <= here < self.nodes@.len(),
            self.open_ok(s, open, end),
            open.contains_key(end as usize),
            open.contains_key(here as usize),
            open[here as usize] <= open[end as usize],
        ensures
            s.so_far(end) <= s.so_far(here) + self.step_cost(here, end),
    {
        self.lemma_step_cost(end, end);
    }

    /// When `end` waits at a priority that no node that waits exceeds, no
    /// way from the start to `end` costs less than the way found to `end`.
    pub proof fn lemma_found(
        &self,
        s: Search,
        open: Map<usize, i64>,
        start: int,
        end: int,
        route: Seq<int>,
        j: int,
    )
        requires
            self.wf(),
            0 <= end < self.nodes@.len(),
            self.tree_ok(s, start),
            self.open_ok(s, open, end),
            self.settled(s, open, -1),
            open.contains_key(end as usize),
            forall|other: usize| #[trigger]
                open.contains_key(other) ==> open[other] <= open[end as usize],
            self.connects(route, start, end),
            0 <= j < route.len(),
            forall|i: int| 0 <= i < j ==> s.closed(open, #[trigger] route[i]),
        ensures
            s.so_far(end) <= self.route_cost(route),
        decreases route.len() - j,
    {
        self.lemma_reach(s, open, start, route, j);
        let here = route[j];
        assert(0 <= here < self.nodes@.len());
        if open.contains_key(here as usize) {
            self.lemma_route_rest(route, j);
            self.lemma_priority(s, open, end, here);
        } else {
            assert(s.closed(open, here));
            assert(j < route.len() - 1);
            self.lemma_found(s, open, start, end, route, j + 1);
        }
    }

    /// When no node waits, every node of a way from the start was
    /// reached.
    pub proof fn lemma_all_reached(
        &self,
        s: Search,
        open: Map<usize, i64>,
        start: int,
        route: Seq<int>,
        j: int,
    )
        requires
            self.wf(),
            self.tree_ok(s, start),
            self.settled(s, open, -1),
            forall|v: usize| !open.contains_key(v),
            self.is_route(route),
            route[0] == start,
            0 <= j < route.len(),
        ensures
            forall|i: int| 0 <= i <= j ==> s.closed(open, #[trigger] route[i]),
        decreases j,
    {
        if j > 0 {
            self.lemma_all_reached(s, open, start, route, j - 1);
        }
        self.lemma_reach(s, open, start, route, j);
    }

    /// At the beginning of a search the start alone was reached, and
    /// waits.
    pub proof fn lemma_begin(&self, s: Search, open: Map<usize, i64>, start: int, end: int)
        requires
            self.wf(),
            0 <= start < self.nodes@.len(),
            0 <= end < self.nodes@.len(),
            s.cost.len() == self.nodes@.len(),
            s.parent.len() == self.nodes@.len(),
            s.walks.len() == self.nodes@.len(),
            forall|v: int| 0 <= v < s.cost.len() && v != start ==> s.cost[v] is None,
            s.cost[start] == Some(0u64),
            s.parent[start] is None,
            s.walks[start] == seq![start],
            open.contains_key(start as usize),
            open[start as usize] == -self.step_cost(start, end),
            forall|v: usize| open.contains_key(v) ==> v == start,
        ensures
            self.tree_ok(s, start),
            self.open_ok(s, open, end),
            self.settled(s, open, -1),
    {
        reveal(Graph::tree_ok);
        assert(open.dom() =~= set![start as usize]);
        assert forall|v: int| #[trigger] s.seen(v) implies self.walk_ok(s, start, v)
            && self.parent_ok(s, start, v) by {
            assert(v == start);
            let walk = s.walks[v];
            assert(walk.len() == 1);
            assert forall|j: int| 0 <= j < walk.len() implies #[trigger] self.dominated(
                s,
                walk,
                j,
            ) by {
                assert(walk.take(1).len() == 1);
            }
        }
        assert forall|u: int, w: int|
            s.closed(open, u) && u != -1 && 0 <= w < self.nodes@.len() && self.adjacent(
                u,
                w,
            ) implies #[trigger] self.relaxed(s, u, w) by {
            assert(u == start);
        }
    }

    /// After a node was taken from the nodes that wait, what held of them
    /// holds of the rest, and what held of the nodes that were left holds
    /// but for that node.
    pub proof fn lemma_leave(&self, s: Search, open: Map<usize, i64>, end: int, current: usize)
        requires
            self.open_ok(s, open, end),
            self.settled(s, open, -1),
            open.contains_key(current),
        ensures
            self.open_ok(s, open.remove(current), end),
            self.settled(s, open.remove(current), current as int),
            open.remove(current).dom().len() + 1 == open.dom().len(),
            s.seen(current as int),
    {
        let rest = open.remove(current);
        assert(rest.dom() =~= open.dom().remove(current));
        assert forall|v: usize| #[trigger] rest.contains_key(v) implies s.seen(v as int) && rest[v]
            == -(s.so_far(v as int) + self.step_cost(v as int, end)) by {
            assert(open.contains_key(v));
        }
        assert forall|u: int, w: int|
            s.closed(rest, u) && u != current && 0 <= w < self.nodes@.len() && self.adjacent(
                u,
                w,
            ) implies #[trigger] self.relaxed(s, u, w) by {
            assert(s.closed(open, u));
        }
    }

    /// The numbers of the nodes of the shortest way from `start` to `end`;
    /// nothing where there is no way. Of several ways of the least cost it
    /// is not said which is returned.
    pub fn shortest_route(&self, start: usize, end: usize) -> (route: Vec<usize>)
        requires
            self.wf(),
            start < self.nodes@.len(),
            end < self.nodes@.len(),
        ensures
            route@.len() == 0 <==> !self.reachable(start as int, end as int),
            route@.len() > 0 ==> self.shortest(
                route@.map_values(|v: usize| v as int),
                start as int,
                end as int,
            ),
    {
        let count = self.nodes.len();
        let ghost big: int = count * STEP_MAX + 1;
        let mut cost_so_far: Vec<Option<u64>> = Vec::new();
        let mut came_from: Vec<Option<usize>> = Vec::new();
        let mut filled: usize = 0;
        while filled < count
            invariant
                0 <= filled <= count,
                cost_so_far@.len() == filled,
                came_from@.len() == filled,
                forall|v: int| 0 <= v < filled ==> cost_so_far@[v] is None,
                forall|v: int| 0 <= v < filled ==> came_from@[v] is None,
            decreases count - filled,
        {
            cost_so_far.push(None);
            came_from.push(None);
            filled += 1;
        }
        cost_so_far.set(start, Some(0));
        let mut frontier = frontier_new();
        let start_priority = self.cost(start, end);
        frontier_push(&mut frontier, start, -(start_priority as i64));
        let ghost mut walks: Seq<Seq<int>> = Seq::new(count as nat, |v: int| seq![start as int]);
        proof {
            self.lemma_begin(
                search_of(cost_so_far@, came_from@, walks),
                queued(frontier),
                start as int,
                end as int,
            );
        }
        let mut found = false;
        while !found && !frontier_is_empty(&frontier)
            invariant
                self.wf(),
                count == self.nodes@.len(),
                start < count,
                end < count,
                big == count * STEP_MAX + 1,
                cost_so_far@.len() == count,
                came_from@.len() == count,
                walks.len() == count,
                self.tree_ok(search_of(cost_so_far@, came_from@, walks), start as int),
                !found ==> self.open_ok(
                    search_of(cost_so_far@, came_from@, walks),
                    queued(frontier),
                    end as int,
                ),
                !found ==> self.settled(
                    search_of(cost_so_far@, came_from@, walks),
                    queued(frontier),
                    -1,
                ),
                !found && search_of(cost_so_far@, came_from@, walks).seen(end as int) ==> queued(
                    frontier,
                ).contains_key(end),
                found ==> search_of(cost_so_far@, came_from@, walks).seen(end as int),
                found ==> forall|other: Seq<int>| #[trigger]
                    self.connects(other, start as int, end as int) ==> search_of(
                        cost_so_far@,
                        came_from@,
                        walks,
                    ).so_far(end as int) <= self.route_cost(other),
            decreases
                    total(cost_so_far@, big),
                    if found {
                        0
                    } else {
                        queued(frontier).dom().len() + 1
                    },
        {
            let ghost s0 = search_of(cost_so_far@, came_from@, walks);
            let ghost open0 = queued(frontier);
            proof {
                lemma_total_positive(cost_so_far@, big);
            }
            let popped = frontier_pop(&mut frontier);
            match popped {
                None => {
                    proof {
                        assert(false);
                    }
                },
                Some((current, _)) => {
                    proof {
                        self.lemma_leave(s0, open0, end as int, current);
                    }
                    if current == end {
                        found = true;
                        proof {
                            assert forall|other: Seq<int>| #[trigger]
                                self.connects(
                                    other,
                                    start as int,
                                    end as int,
                                ) implies s0.so_far(end as int) <= self.route_cost(other) by {
                                self.lemma_found(s0, open0, start as int, end as int, other, 0);
                            }
                        }
                    } else {
                        let current_cost = match cost_so_far[current] {
                            Some(c) => c,
                            None => 0,
                        };
                        let next_nodes = self.neighbours(current);
                        let ghost after_pop = queued(frontier);
                        let ghost total_before = total(cost_so_far@, big);
                        let mut i: usize = 0;
                        while i < next_nodes.len()
                            invariant
                                self.wf(),
                                count == self.nodes@.len(),
                                start < count,
                                end < count,
                                current < count,
                                current != end,
                                big == count * STEP_MAX + 1,
                                cost_so_far@.len() == count,
                                came_from@.len() == count,
                                walks.len() == count,
                                0 <= i <= next_nodes@.len(),
                                forall|k: int|
                                    0 <= k < next_nodes@.len() ==> self.adjacent(
                                        current as int,
                                        #[trigger] next_nodes@[k] as int,
                                    ),
                                forall|k: int|
                                    0 <= k < next_nodes@.len() ==> (#[trigger] next_nodes@[k])
                                        < count,
                                cost_so_far@[current as int] == Some(current_cost),
                                !queued(frontier).contains_key(current),
                                self.tree_ok(
                                    search_of(cost_so_far@, came_from@, walks),
                                    start as int,
                                ),
                                self.open_ok(
                                    search_of(cost_so_far@, came_from@, walks),
                                    queued(frontier),
                                    end as int,
                                ),
                                self.settled(
                                    search_of(cost_so_far@, came_from@, walks),
                                    queued(frontier),
                                    current as int,
                                ),
                                search_of(cost_so_far@, came_from@, walks).seen(end as int)
                                    ==> queued(frontier).contains_key(end),
                                forall|k: int|
                                    0 <= k < i ==> #[trigger] self.relaxed(
                                        search_of(cost_so_far@, came_from@, walks),
                                        current as int,
                                        next_nodes@[k] as int,
                                    ),
                                total(cost_so_far@, big) < total_before || (total(
                                    cost_so_far@,
                                    big,
                                ) == total_before && queued(frontier) == after_pop),
                            decreases next_nodes@.len() - i,
                        {
                            let next = next_nodes[i];
                            let ghost s = search_of(cost_so_far@, came_from@, walks);
                            let ghost open = queued(frontier);
                            proof {
                                assert(s.seen(current as int));
                                self.lemma_cost_bound(s, start as int, current as int);
                                self.lemma_step_cost(current as int, next as int);
                                self.lemma_step_cost(next as int, end as int);
                                assert((count - 1) * STEP_MAX <= 1_000_000_000 * 1_500_000)
                                    by (nonlinear_arith)
                                    requires
                                        1 <= count <= 1_000_000_000,
                                        STEP_MAX == 1_500_000,
                                ;
                            }
                            let new_cost = current_cost + self.cost(current, next);
                            let improves = match cost_so_far[next] {
                                None => true,
                                Some(known) => new_cost < known,
                            };
                            if improves {
                                let priority = new_cost + self.cost(next, end);
                                proof {
                                    self.lemma_relax(
                                        s,
                                        open,
                                        start as int,
                                        end as int,
                                        current as int,
                                        next as int,
                                        new_cost,
                                    );
                                    lemma_total_update(
                                        cost_so_far@,
                                        next as int,
                                        Some(new_cost),
                                        big,
                                    );
                                    assert((count - 1) * STEP_MAX < big) by (nonlinear_arith)
                                        requires
                                            big == count * STEP_MAX + 1,
                                            STEP_MAX == 1_500_000,
                                    ;
                                }
                                cost_so_far.set(next, Some(new_cost));
                                frontier_push(&mut frontier, next, -(priority as i64));
                                came_from.set(next, Some(current));
                                proof {
                                    walks = walks.update(
                                        next as int,
                                        walks[current as int].push(next as int),
                                    );
                                    let s2 = search_of(cost_so_far@, came_from@, walks);
                                    assert(s2 == s.with(current as int, next as int, new_cost));
                                    assert forall|k: int| 0 <= k < i + 1 implies #[trigger] self.relaxed(
                                        s2,
                                        current as int,
                                        next_nodes@[k] as int,
                                    ) by {
                                        if k < i {
                                            assert(self.relaxed(
                                                s,
                                                current as int,
                                                next_nodes@[k] as int,
                                            ));
                                            assert(s.seen(next_nodes@[k] as int));
                                        }
                                    }
                                }
                            } else {
                                proof {
                                    assert(self.relaxed(s, current as int, next as int));
                                }
                            }
                            i += 1;
                        }
                        proof {
                            let s = search_of(cost_so_far@, came_from@, walks);
                            let open = queued(frontier);
                            assert(self.settled(s, open, -1)) by {
                                assert forall|u: int, w: int|
                                    s.closed(open, u) && u != -1 && 0 <= w < self.nodes@.len()
                                        && self.adjacent(u, w) implies #[trigger] self.relaxed(
                                    s,
                                    u,
                                    w,
                                ) by {
                                    if u == current {
                                        assert(next_nodes@.contains(w as usize));
                                        let k = choose|k: int|
                                            0 <= k < next_nodes@.len() && next_nodes@[k]
                                                == w as usize;
                                        assert(self.relaxed(
                                            s,
                                            current as int,
                                            next_nodes@[k] as int,
                                        ));
                                    }
                                }
                            }
                            assert(total_before == total(s0.cost, big));
                            assert(after_pop == open0.remove(current));
                            assert(total(cost_so_far@, big) < total_before || queued(
                                frontier,
                            ).dom().len() + 1 < open0.dom().len() + 1);
                            lemma_total_positive(cost_so_far@, big);
                        }
                    }
                },
            }
        }
        let mut route: Vec<usize> = Vec::new();
        let ghost s = search_of(cost_so_far@, came_from@, walks);
        if !found {
            proof {
                assert(!s.seen(end as int));
                if self.reachable(start as int, end as int) {
                    let way = choose|way: Seq<int>| self.connects(way, start as int, end as int);
                    self.lemma_all_reached(s, queued(frontier), start as int, way, way.len() - 1);
                    assert(s.closed(queued(frontier), way[way.len() - 1]));
                }
            }
            return route;
        }
        let mut reversed: Vec<usize> = Vec::new();
        reversed.push(end);
        let mut at: usize = end;
        let ghost mut tail: Seq<int> = seq![end as int];
        let mut done = false;
        proof {
            self.lemma_tree(s, start as int, end as int);
            assert(self.is_route(tail));
        }
        while !done
            invariant
                self.wf(),
                count == self.nodes@.len(),
                start < count,
                end < count,
                at < count,
                cost_so_far@.len() == count,
                came_from@.len() == count,
                walks.len() == count,
                s == search_of(cost_so_far@, came_from@, walks),
                self.tree_ok(s, start as int),
                s.seen(at as int),
                s.seen(end as int),
                self.connects(tail, at as int, end as int),
                self.route_cost(tail) + s.so_far(at as int) <= s.so_far(end as int),
                reversed@.len() == tail.len(),
                forall|k: int|
                    0 <= k < tail.len() ==> #[trigger] reversed@[k] as int == tail[tail.len() - 1
                        - k],
                done ==> at == start,
            decreases
                    if done {
                        0
                    } else {
                        s.so_far(at as int) + 1
                    },
                    s.walks[at as int].len(),
        {
            proof {
                self.lemma_tree(s, start as int, at as int);
            }
            match came_from[at] {
                None => {
                    done = true;
                },
                Some(previous) => {
                    proof {
                        assert(at != start);
                        self.lemma_step_cost(previous as int, at as int);
                        self.lemma_route_prepend(previous as int, tail);
                        let longer = seq![previous as int] + tail;
                        assert(longer[longer.len() - 1] == tail[tail.len() - 1]);
                        assert forall|k: int| 0 <= k < longer.len() implies #[trigger] reversed@.push(
                            previous,
                        )[k] as int == longer[longer.len() - 1 - k] by {
                            if k < tail.len() {
                                assert(longer[longer.len() - 1 - k] == tail[tail.len() - 1 - k]);
                            }
                        }
                        tail = longer;
                    }
                    reversed.push(previous);
                    at = previous;
                },
            }
        }
        let length = reversed.len();
        let mut k: usize = 0;
        while k < length
            invariant
                length == reversed@.len(),
                length == tail.len(),
                0 <= k <= length,
                route@.len() == k,
                forall|j: int|
                    0 <= j < tail.len() ==> #[trigger] reversed@[j] as int == tail[tail.len() - 1
                        - j],
                forall|j: int| 0 <= j < k ==> #[trigger] route@[j] as int == tail[j],
            decreases length - k,
        {
            route.push(reversed[length - 1 - k]);
            k += 1;
        }
        proof {
            let indices = route@.map_values(|v: usize| v as int);
            assert(indices =~= tail);
            self.lemma_tree(s, start as int, start as int);
        }
        route
    }

    /// The shortest way from the node `start` to the node `end`, as the
    /// positions of its nodes, `start` and `end` included; nothing where
    /// there is no way.
    pub fn a_star(&self, start: usize, end: usize) -> (path: Vec<Point>)
        requires
            self.wf(),
            start < self.nodes@.len(),
            end < self.nodes@.len(),
        ensures
            path@.len() == 0 <==> !self.reachable(start as int, end as int),
            path@.len() > 0 ==> exists|route: Seq<int>| #[trigger]
                self.shortest(route, start as int, end as int) && path@ == self.positions(route),
    {
        let route = self.shortest_route(start, end);
        let ghost indices = route@.map_values(|v: usize| v as int);
        let mut path: Vec<Point> = Vec::new();
        let mut k: usize = 0;
        while k < route.len()
            invariant
                0 <= k <= route@.len(),
                indices == route@.map_values(|v: usize| v as int),
                route@.len() > 0 ==> self.is_route(indices),
                path@.len() == k,
                forall|j: int| 0 <= j < k ==> #[trigger] path@[j] == self.nodes@[indices[j]],
            decreases route@.len() - k,
        {
            proof {
                assert(0 <= indices[k as int] < self.nodes@.len());
            }
            path.push(self.nodes[route[k]]);
            k += 1;
        }
        proof {
            if route@.len() > 0 {
                assert(path@ =~= self.positions(indices));
            }
        }
        path
    }
}

} // verus!
