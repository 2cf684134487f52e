//! Cutting the plane into trapezoids along the outline of an island, and
//! telling which of them lie inside it.

use crate::geometry::Point;
use crate::map::{edges_in_bounds, points_in_bounds, Edge};
use crate::trapezoid::{
    cut_nodes, everything, locate, on_the_line, right_of, top_first, Corner, QueryNode,
    QueryStructure, Trapezoid,
};
use vstd::prelude::*;

verus! {

/// The plane cut into trapezoids. A trapezoid keeps its number; one that
/// was cut is gone, and its parts have new numbers.
#[derive(Debug)]
pub struct Decomposition {
    pub trapezoids: Vec<Option<Trapezoid>>,
    pub structure: QueryStructure,
}

/// The sides of the outline `ring`: from each point to the next, and from
/// the last to the first.
pub open spec fn ring_segments(ring: Seq<Point>) -> Seq<Edge> {
    Seq::new(ring.len(), |i: int| Edge(ring[i], ring[(i + 1) % (ring.len() as int)]))
}

/// Whether `p` is an end of one of the first `n` of `segments`.
pub open spec fn is_end_before(segments: Seq<Edge>, n: int, p: Point) -> bool {
    exists|k: int| 0 <= k < n && ((#[trigger] segments[k]).0 == p || segments[k].1 == p)
}

/// How many of the first `n` of `segments` the level ray from `corner` to
/// the right crosses.
pub open spec fn crossings(corner: Corner, segments: Seq<Edge>, n: nat) -> nat
    decreases n,
{
    if n == 0 {
        0
    } else {
        crossings(corner, segments, (n - 1) as nat) + if corner.ray_crosses(segments[n - 1]) {
            1nat
        } else {
            0nat
        }
    }
}

/// Whether `corner` lies on one of `segments`.
pub open spec fn on_outline(corner: Corner, segments: Seq<Edge>) -> bool {
    exists|k: int| 0 <= k < segments.len() && corner.lies_on(#[trigger] segments[k])
}

/// Whether `corner` lies within the outline `segments` or on it: it is on a
/// segment, or the level ray from it to the right crosses the outline an
/// odd number of times.
pub open spec fn corner_within(corner: Corner, segments: Seq<Edge>) -> bool {
    on_outline(corner, segments) || crossings(corner, segments, segments.len()) % 2 == 1
}

/// Whether all four corners of `trapezoid` lie within the outline or on it.
pub open spec fn trapezoid_within(trapezoid: Trapezoid, segments: Seq<Edge>) -> bool {
    forall|i: int| 0 <= i < 4 ==> corner_within(#[trigger] trapezoid.corners()[i], segments)
}

/// The sides of the outline `ring`.
pub fn segments_of(ring: &Vec<Point>) -> (segments: Vec<Edge>)
    requires
        points_in_bounds(ring@),
    ensures
        segments@ == ring_segments(ring@),
        edges_in_bounds(segments@),
{
    let count = ring.len();
    let mut segments: Vec<Edge> = Vec::new();
    let mut index: usize = 0;
    while index < count
        invariant
            count == ring@.len(),
            points_in_bounds(ring@),
            0 <= index <= count,
            segments@.len() == index,
            edges_in_bounds(segments@),
            forall|k: int| 0 <= k < index ==> #[trigger] segments@[k] == ring_segments(ring@)[k],
        decreases count - index,
    {
        let next = if index + 1 == count {
            0
        } else {
            index + 1
        };
        assert(next == (index + 1) % (count as int)) by {
            if index + 1 == count {
                assert((index + 1) % (count as int) == 0) by (nonlinear_arith)
                    requires
                        index + 1 == count,
                        count > 0,
                ;
            } else {
                vstd::arithmetic::div_mod::lemma_small_mod((index + 1) as nat, count as nat);
            }
        }
        segments.push(Edge(ring[index], ring[next]));
        index += 1;
    }
    assert(segments@ =~= ring_segments(ring@));
    segments
}

/// Whether `p` is an end of one of the first `n` of `segments`.
pub fn is_used_end(segments: &Vec<Edge>, n: usize, p: Point) -> (used: bool)
    requires
        n <= segments@.len(),
    ensures
        used == is_end_before(segments@, n as int, p),
{
    let mut k: usize = 0;
    while k < n
        invariant
            n <= segments@.len(),
            0 <= k <= n,
            forall|j: int| 0 <= j < k ==> !((#[trigger] segments@[j]).0 == p || segments@[j].1 == p),
        decreases n - k,
    {
        if segments[k].0 == p || segments[k].1 == p {
            return true;
        }
        k += 1;
    }
    false
}

/// Whether `corner` lies within the outline `segments` or on it.
pub fn is_corner_within(corner: &Corner, segments: &Vec<Edge>) -> (within: bool)
    requires
        corner.wf(),
        edges_in_bounds(segments@),
    ensures
        within == corner_within(*corner, segments@),
{
    let mut on_any = false;
    let mut odd = false;
    let mut k: usize = 0;
    while k < segments.len()
        invariant
            corner.wf(),
            edges_in_bounds(segments@),
            0 <= k <= segments@.len(),
            on_any == exists|j: int| 0 <= j < k && corner.lies_on(#[trigger] segments@[j]),
            odd == (crossings(*corner, segments@, k as nat) % 2 == 1),
        decreases segments@.len() - k,
    {
        let segment = segments[k];
        if corner.is_on(&segment) {
            on_any = true;
        }
        if corner.crosses(&segment) {
            odd = !odd;
        }
        k += 1;
    }
    on_any || odd
}

/// Whether all four corners of `trapezoid` lie within the outline
/// `segments` or on it.
pub fn is_trapezoid_within(trapezoid: &Trapezoid, segments: &Vec<Edge>) -> (within: bool)
    requires
        trapezoid.wf(),
        edges_in_bounds(segments@),
    ensures
        within == trapezoid_within(*trapezoid, segments@),
{
    let corners = trapezoid.vertices();
    let mut i: usize = 0;
    while i < 4
        invariant
            trapezoid.wf(),
            edges_in_bounds(segments@),
            corners@ == trapezoid.corners(),
            forall|j: int| 0 <= j < 4 ==> (#[trigger] corners@[j]).wf(),
            0 <= i <= 4,
            forall|j: int| 0 <= j < i ==> corner_within(#[trigger] trapezoid.corners()[j], segments@),
        decreases 4 - i,
    {
        let corner = corners[i];
        if !is_corner_within(&corner, segments) {
            return false;
        }
        i += 1;
    }
    true
}

/// What a decomposition holds: its trapezoids by their numbers, and the
/// steps of the search.
pub struct Cut {
    pub trapezoids: Seq<Option<Trapezoid>>,
    pub nodes: Seq<QueryNode>,
}

/// The plane in one piece.
pub open spec fn uncut() -> Cut {
    Cut { trapezoids: seq![Some(everything())], nodes: seq![QueryNode::Trapezoid(0)] }
}

/// `cut` after the trapezoid in which `p` is found was cut level at the
/// height of `p`: the part above and the part below get the next two
/// numbers.
pub open spec fn level_cut(cut: Cut, p: Point) -> Cut {
    let index = locate(cut.nodes, 0, p);
    let parts = cut.trapezoids[index as int]->0.cut_level(p.y);
    Cut {
        trapezoids: cut.trapezoids.push(Some(parts.0)).push(Some(parts.1)).update(
            index as int,
            None,
        ),
        nodes: cut_nodes(
            cut.nodes,
            cut.nodes.len() as int,
            0,
            index,
            cut.trapezoids.len() as usize,
            (cut.trapezoids.len() + 1) as usize,
            None,
            p.y,
        ),
    }
}

/// `cut` after each of its trapezoids with a number from `index` to
/// `count` that `segment` goes through was cut along `segment`: the part
/// to the left and the part to the right get the next two numbers.
pub open spec fn along_cut(cut: Cut, segment: Edge, count: int, index: int) -> Cut
    decreases count - index,
{
    if index < 0 || index >= count || index >= cut.trapezoids.len() {
        cut
    } else {
        match cut.trapezoids[index] {
            None => along_cut(cut, segment, count, index + 1),
            Some(trapezoid) => match trapezoid.cut_along(segment) {
                None => along_cut(cut, segment, count, index + 1),
                Some(parts) => along_cut(
                    Cut {
                        trapezoids: cut.trapezoids.push(Some(parts.0)).push(Some(parts.1)).update(
                            index,
                            None,
                        ),
                        nodes: cut_nodes(
                            cut.nodes,
                            cut.nodes.len() as int,
                            0,
                            index as usize,
                            cut.trapezoids.len() as usize,
                            (cut.trapezoids.len() + 1) as usize,
                            Some(segment),
                            0,
                        ),
                    },
                    segment,
                    count,
                    index + 1,
                ),
            },
        }
    }
}

/// The plane cut along the first `n` of `segments`: for each in turn,
/// level at its higher end and at its lower end, where no earlier segment
/// ended there, then along the segment.
pub open spec fn outline_cut(segments: Seq<Edge>, n: nat) -> Cut
    decreases n,
{
    if n == 0 {
        uncut()
    } else {
        let before = outline_cut(segments, (n - 1) as nat);
        let segment = segments[n - 1];
        let ends = top_first(segment);
        let first = if is_end_before(segments, n - 1, ends.0) {
            before
        } else {
            level_cut(before, ends.0)
        };
        let second = if is_end_before(segments, n - 1, ends.1) {
            first
        } else {
            level_cut(first, ends.1)
        };
        along_cut(second, segment, second.trapezoids.len() as int, 0)
    }
}

/// Those of `trapezoids` whose four corners lie within the outline
/// `segments` or on it, in the order of their numbers.
pub open spec fn kept_inside(trapezoids: Seq<Option<Trapezoid>>, segments: Seq<Edge>) -> Seq<
    Trapezoid,
>
    decreases trapezoids.len(),
{
    if trapezoids.len() == 0 {
        Seq::empty()
    } else {
        let before = kept_inside(trapezoids.drop_last(), segments);
        match trapezoids.last() {
            Some(trapezoid) => if trapezoid_within(trapezoid, segments) {
                before.push(trapezoid)
            } else {
                before
            },
            None => before,
        }
    }
}

impl Decomposition {
    /// The search structure is well formed, every trapezoid is, and every
    /// point in bounds is found in a trapezoid that holds it: the
    /// trapezoids leave no gap.
    pub open spec fn wf(&self) -> bool {
        &&& self.structure.wf()
        &&& self.trapezoids_wf()
        &&& forall|p: Point| p.in_bounds() ==> #[trigger] self.finds(p)
    }

    /// Whether every trapezoid is well formed.
    pub open spec fn trapezoids_wf(&self) -> bool {
        forall|i: int|
            0 <= i < self.trapezoids@.len() ==> (#[trigger] self.trapezoids@[i] matches Some(t)
                ==> t.wf())
    }

    /// Whether `p` is found in a trapezoid that holds it.
    pub open spec fn finds(&self, p: Point) -> bool {
        let index = self.structure.found(p);
        &&& index < self.trapezoids@.len()
        &&& self.trapezoids@[index as int] matches Some(t) && t.holds(p)
    }

    /// What the decomposition holds.
    pub open spec fn state(&self) -> Cut {
        Cut { trapezoids: self.trapezoids@, nodes: self.structure.nodes@ }
    }

    /// One trapezoid that holds every point in bounds.
    pub fn new() -> (whole: Decomposition)
        ensures
            whole.wf(),
            whole.state() == uncut(),
    {
        let mut trapezoids: Vec<Option<Trapezoid>> = Vec::new();
        trapezoids.push(Some(Trapezoid::whole_plane()));
        let whole = Decomposition { trapezoids, structure: QueryStructure::new() };
        proof {
            reveal_with_fuel(crate::trapezoid::locate, 2);
            assert forall|p: Point| p.in_bounds() implies #[trigger] whole.finds(p) by {
                assert(crate::trapezoid::node_wf(whole.structure.nodes@, 0));
                assert(whole.structure.found(p) == 0);
                let t = whole.trapezoids@[0]->0;
                assert(t.holds(p)) by {
                    lemma_whole_plane_holds(t, p);
                }
            }
            assert(whole.trapezoids@ =~= seq![Some(everything())]);
        }
        whole
    }

    /// Cuts the trapezoid of `p` level at the height of `p`.
    pub fn split_at(&mut self, p: Point)
        requires
            old(self).wf(),
            p.in_bounds(),
        ensures
            final(self).wf(),
            final(self).state() == level_cut(old(self).state(), p),
    {
        let index = self.structure.query(p);
        assert(self.finds(p));
        let trapezoid = match self.trapezoids[index] {
            Some(t) => t,
            None => Trapezoid::whole_plane(),
        };
        let (trapezoid_above, trapezoid_below) = trapezoid.split_vertically(p.y);
        let ghost before = *self;
        let trapezoid_above_index = self.trapezoids.len();
        self.trapezoids.push(Some(trapezoid_above));
        let trapezoid_below_index = self.trapezoids.len();
        self.trapezoids.push(Some(trapezoid_below));
        self.trapezoids.set(index, None);
        self.structure.insert_y_node(index, trapezoid_above_index, trapezoid_below_index, p.y);
        proof {
            assert forall|q: Point| q.in_bounds() implies #[trigger] self.finds(q) by {
                assert(before.finds(q));
                let was = before.structure.found(q);
                if was != index {
                    assert(self.trapezoids@[was as int] == before.trapezoids@[was as int]);
                }
            }
        }
    }

    /// Cuts every trapezoid that `segment` goes through from top to bottom
    /// along `segment`.
    pub fn split_along(&mut self, segment: Edge)
        requires
            old(self).wf(),
            segment.0.in_bounds(),
            segment.1.in_bounds(),
        ensures
            final(self).wf(),
            final(self).state() == along_cut(
                old(self).state(),
                segment,
                old(self).trapezoids@.len() as int,
                0,
            ),
    {
        let count = self.trapezoids.len();
        let mut trapezoid_index: usize = 0;
        while trapezoid_index < count
            invariant
                self.wf(),
                segment.0.in_bounds(),
                segment.1.in_bounds(),
                count <= self.trapezoids@.len(),
                count == old(self).trapezoids@.len(),
                0 <= trapezoid_index <= count,
                along_cut(self.state(), segment, count as int, trapezoid_index as int)
                    == along_cut(old(self).state(), segment, count as int, 0),
            decreases count - trapezoid_index,
        {
            if let Some(trapezoid) = self.trapezoids[trapezoid_index] {
                if let Some((trapezoid_left, trapezoid_right)) = trapezoid.split_horizontally(
                    segment,
                ) {
                    let ghost before = *self;
                    let trapezoid_left_index = self.trapezoids.len();
                    self.trapezoids.push(Some(trapezoid_left));
                    let trapezoid_right_index = self.trapezoids.len();
                    self.trapezoids.push(Some(trapezoid_right));
                    self.trapezoids.set(trapezoid_index, None);
                    self.structure.insert_x_node(
                        trapezoid_index,
                        trapezoid_left_index,
                        trapezoid_right_index,
                        segment,
                    );
                    proof {
                        assert forall|q: Point| q.in_bounds() implies #[trigger] self.finds(q) by {
                            assert(before.finds(q));
                            let was = before.structure.found(q);
                            if was != trapezoid_index {
                                assert(self.trapezoids@[was as int] == before.trapezoids@[was as int]);
                            }
                        }
                    }
                }
            }
            trapezoid_index += 1;
        }
    }

    /// Cuts the plane along the outline `segments`: for each segment in
    /// turn, level at each end that no earlier segment ended in, then along
    /// the segment.
    pub fn of_outline(segments: &Vec<Edge>) -> (cut: Decomposition)
        requires
            edges_in_bounds(segments@),
        ensures
            cut.wf(),
            cut.state() == outline_cut(segments@, segments@.len()),
    {
        let mut cut = Decomposition::new();
        let mut index: usize = 0;
        while index < segments.len()
            invariant
                cut.wf(),
                edges_in_bounds(segments@),
                0 <= index <= segments@.len(),
                cut.state() == outline_cut(segments@, index as nat),
            decreases segments@.len() - index,
        {
            let segment = segments[index];
            let Edge(a, b) = segment.order_by_y();
            if !is_used_end(segments, index, a) {
                cut.split_at(a);
            }
            if !is_used_end(segments, index, b) {
                cut.split_at(b);
            }
            cut.split_along(segment);
            index += 1;
        }
        cut
    }

    /// The trapezoids whose four corners lie within the outline `segments`
    /// or on it.
    pub fn inside(&self, segments: &Vec<Edge>) -> (kept: Vec<Trapezoid>)
        requires
            self.trapezoids_wf(),
            edges_in_bounds(segments@),
        ensures
            kept@ == kept_inside(self.trapezoids@, segments@),
            forall|k: int| 0 <= k < kept@.len() ==> (#[trigger] kept@[k]).wf(),
    {
        let mut kept: Vec<Trapezoid> = Vec::new();
        let mut i: usize = 0;
        while i < self.trapezoids.len()
            invariant
                self.trapezoids_wf(),
                edges_in_bounds(segments@),
                0 <= i <= self.trapezoids@.len(),
                kept@ == kept_inside(self.trapezoids@.take(i as int), segments@),
                forall|k: int| 0 <= k < kept@.len() ==> (#[trigger] kept@[k]).wf(),
            decreases self.trapezoids@.len() - i,
        {
            proof {
                let next = self.trapezoids@.take(i as int + 1);
                assert(next.drop_last() =~= self.trapezoids@.take(i as int));
                assert(next.last() == self.trapezoids@[i as int]);
            }
            if let Some(trapezoid) = self.trapezoids[i] {
                if is_trapezoid_within(&trapezoid, segments) {
                    kept.push(trapezoid);
                }
            }
            i += 1;
        }
        assert(self.trapezoids@.take(self.trapezoids@.len() as int) =~= self.trapezoids@);
        kept
    }
}

/// The trapezoid between the bounds holds every point in bounds.
pub proof fn lemma_whole_plane_holds(t: Trapezoid, p: Point)
    requires
        p.in_bounds(),
        t == crate::trapezoid::everything(),
    ensures
        t.holds(p),
{
    reveal(right_of);
    reveal(on_the_line);
    assert(t.left.0.x == -500_000 && t.left.1.x == -500_000);
    assert(t.left.0.y == 500_000 && t.left.1.y == -500_000);
    assert(t.right.0.x == 500_000 && t.right.1.x == 500_000);
    assert(t.right.0.y == 500_000 && t.right.1.y == -500_000);
    assert(crate::trapezoid::rise(t.left) == 1_000_000);
    assert(crate::trapezoid::rise(t.right) == 1_000_000);
    assert(crate::trapezoid::run_at(t.left, p.y as int) == -500_000_000_000);
    assert(crate::trapezoid::run_at(t.right, p.y as int) == 500_000_000_000);
}

} // verus!
