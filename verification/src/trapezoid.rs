//! Trapezoids with level top and bottom, and the structure that finds the
//! trapezoid of a point.
//!
//! The slanted sides of a trapezoid lie on segments between lattice points,
//! so its corners need not be lattice points. A corner is therefore kept as
//! a line and a height, and compared by cross-multiplying.

use crate::geometry::{cross, lemma_product_bound, Point, COORDINATE_MAX};
use crate::map::Edge;
use vstd::prelude::*;

verus! {

/// A region between two slanted sides and two heights.
#[derive(Clone, Copy, Debug, PartialEq, Eq, Structural)]
pub struct Trapezoid {
    /// The segment on which the left side lies.
    pub left: Edge,
    /// The segment on which the right side lies.
    pub right: Edge,
    pub top: i64,
    pub bottom: i64,
}

/// The point of `line` at the height `y`.
#[derive(Clone, Copy, Debug, PartialEq, Eq, Structural)]
pub struct Corner {
    pub line: Edge,
    pub y: i64,
}

/// A step of the search for the trapezoid of a point. The numbers of the
/// steps that follow are places in [`QueryStructure::nodes`].
#[derive(Clone, Copy, Debug, PartialEq, Eq, Structural)]
pub enum QueryNode {
    /// To the left of the segment, or on it: the first; to its right: the
    /// second.
    X(Edge, usize, usize),
    /// At this height or above: the first; below: the second.
    Y(i64, usize, usize),
    /// The search ends in the trapezoid of this number.
    Trapezoid(usize),
}

/// The search structure: a tree of steps, the root at place 0, every step
/// before the steps that follow it.
#[derive(Debug)]
pub struct QueryStructure {
    pub nodes: Vec<QueryNode>,
}

/// A segment in bounds that is not level.
pub open spec fn slanted(line: Edge) -> bool {
    line.0.in_bounds() && line.1.in_bounds() && line.0.y != line.1.y
}

/// A height in bounds.
pub open spec fn height_in_bounds(y: int) -> bool {
    -COORDINATE_MAX <= y <= COORDINATE_MAX
}

/// The height that `line` spans, without sign.
pub open spec fn rise(line: Edge) -> int {
    if line.1.y > line.0.y {
        line.1.y - line.0.y
    } else {
        line.0.y - line.1.y
    }
}

/// `rise(line)` times the x coordinate of the point of `line` at the height
/// `y`.
pub open spec fn run_at(line: Edge, y: int) -> int {
    let whole = line.0.x * (line.1.y - line.0.y) + (y - line.0.y) * (line.1.x - line.0.x);
    if line.1.y > line.0.y {
        whole
    } else {
        -whole
    }
}

/// Whether, at the height `y`, `a` is to the left of `b` or meets it.
#[verifier::opaque]
pub open spec fn left_or_on(a: Edge, b: Edge, y: int) -> bool {
    run_at(a, y) * rise(b) <= run_at(b, y) * rise(a)
}

/// Whether `point` lies strictly to the right of `line`.
#[verifier::opaque]
pub open spec fn right_of(point: Point, line: Edge) -> bool {
    point.x * rise(line) > run_at(line, point.y as int)
}

/// Whether `point` lies on the line through `line`.
#[verifier::opaque]
pub open spec fn on_the_line(point: Point, line: Edge) -> bool {
    point.x * rise(line) == run_at(line, point.y as int)
}

/// The higher end of `segment` first; of a level one, the second end first.
pub open spec fn top_first(segment: Edge) -> Edge {
    if segment.0.y > segment.1.y {
        segment
    } else {
        Edge(segment.1, segment.0)
    }
}

/// Whether one end of `segment` is at the height `y` or above, and the
/// other below.
pub open spec fn straddles(segment: Edge, y: int) -> bool {
    (segment.0.y >= y) != (segment.1.y >= y)
}

/// Whether the height `y` lies between the ends of `segment`.
pub open spec fn spans(segment: Edge, y: int) -> bool {
    (segment.0.y <= y <= segment.1.y) || (segment.1.y <= y <= segment.0.y)
}

impl Edge {
    /// The higher end first.
    pub fn order_by_y(&self) -> (ordered: Edge)
        ensures
            ordered == top_first(*self),
    {
        if self.0.y > self.1.y {
            Edge(self.0, self.1)
        } else {
            Edge(self.1, self.0)
        }
    }
}

/// The height that `line` spans.
pub fn rise_of(line: &Edge) -> (r: i64)
    requires
        slanted(*line),
    ensures
        r == rise(*line),
        0 < r <= 1_000_000,
{
    if line.1.y > line.0.y {
        line.1.y - line.0.y
    } else {
        line.0.y - line.1.y
    }
}

/// `rise(line)` times the x coordinate of `line` at the height `y`.
pub fn run_of(line: &Edge, y: i64) -> (r: i64)
    requires
        slanted(*line),
        height_in_bounds(y as int),
    ensures
        r == run_at(*line, y as int),
        -1_500_000_000_000 <= r <= 1_500_000_000_000,
{
    let dy = line.1.y - line.0.y;
    let dx = line.1.x - line.0.x;
    proof {
        lemma_product_bound(line.0.x as int, dy as int, COORDINATE_MAX as int, 1_000_000);
        lemma_product_bound((y - line.0.y) as int, dx as int, 1_000_000, 1_000_000);
    }
    let whole = line.0.x * dy + (y - line.0.y) * dx;
    if dy > 0 {
        whole
    } else {
        -whole
    }
}

/// Whether, at the height `y`, `a` is to the left of `b` or meets it.
pub fn is_left_or_on(a: &Edge, b: &Edge, y: i64) -> (left: bool)
    requires
        slanted(*a),
        slanted(*b),
        height_in_bounds(y as int),
    ensures
        left == left_or_on(*a, *b, y as int),
{
    reveal(left_or_on);
    let run_a = run_of(a, y);
    let run_b = run_of(b, y);
    let rise_a = rise_of(a);
    let rise_b = rise_of(b);
    proof {
        lemma_product_bound(run_a as int, rise_b as int, 1_500_000_000_000, 1_000_000);
        lemma_product_bound(run_b as int, rise_a as int, 1_500_000_000_000, 1_000_000);
    }
    (run_a as i128) * (rise_b as i128) <= (run_b as i128) * (rise_a as i128)
}

/// Whether `point` lies strictly to the right of `line`.
pub fn is_right_of(point: Point, line: &Edge) -> (right: bool)
    requires
        point.in_bounds(),
        slanted(*line),
    ensures
        right == right_of(point, *line),
{
    reveal(right_of);
    let run = run_of(line, point.y);
    let up = rise_of(line);
    proof {
        lemma_product_bound(point.x as int, up as int, COORDINATE_MAX as int, 1_000_000);
    }
    point.x * up > run
}

/// Whether `point` lies on the line through `line`.
pub fn is_on_the_line(point: Point, line: &Edge) -> (on: bool)
    requires
        point.in_bounds(),
        slanted(*line),
    ensures
        on == on_the_line(point, *line),
{
    reveal(on_the_line);
    let run = run_of(line, point.y);
    let up = rise_of(line);
    proof {
        lemma_product_bound(point.x as int, up as int, COORDINATE_MAX as int, 1_000_000);
    }
    point.x * up == run
}

impl Corner {
    /// On a slanted line in bounds, at a height in bounds.
    pub open spec fn wf(self) -> bool {
        slanted(self.line) && height_in_bounds(self.y as int)
    }

    /// Whether this corner lies on the closed segment `segment`.
    pub open spec fn lies_on(self, segment: Edge) -> bool {
        if segment.0.y == segment.1.y {
            &&& self.y == segment.0.y
            &&& (segment.0.x * rise(self.line) <= run_at(self.line, self.y as int) <= segment.1.x
                * rise(self.line) || segment.1.x * rise(self.line) <= run_at(
                self.line,
                self.y as int,
            ) <= segment.0.x * rise(self.line))
        } else {
            &&& spans(segment, self.y as int)
            &&& run_at(self.line, self.y as int) * rise(segment) == run_at(segment, self.y as int)
                * rise(self.line)
        }
    }

    /// Whether the level ray from this corner to the right crosses
    /// `segment`. Of a segment with an end on the ray, the end counts when
    /// the other end is below; a level segment is never crossed.
    pub open spec fn ray_crosses(self, segment: Edge) -> bool {
        &&& straddles(segment, self.y as int)
        &&& left_or_on(self.line, segment, self.y as int)
    }

    /// Whether this corner lies on `segment`.
    pub fn is_on(&self, segment: &Edge) -> (on: bool)
        requires
            self.wf(),
            segment.0.in_bounds(),
            segment.1.in_bounds(),
        ensures
            on == self.lies_on(*segment),
    {
        let run = run_of(&self.line, self.y);
        let up = rise_of(&self.line);
        if segment.0.y == segment.1.y {
            if self.y != segment.0.y {
                return false;
            }
            proof {
                lemma_product_bound(segment.0.x as int, up as int, COORDINATE_MAX as int, 1_000_000);
                lemma_product_bound(segment.1.x as int, up as int, COORDINATE_MAX as int, 1_000_000);
            }
            let first = segment.0.x * up;
            let second = segment.1.x * up;
            (first <= run && run <= second) || (second <= run && run <= first)
        } else {
            let within = (segment.0.y <= self.y && self.y <= segment.1.y) || (segment.1.y <= self.y
                && self.y <= segment.0.y);
            if !within {
                return false;
            }
            let other_run = run_of(segment, self.y);
            let other_up = rise_of(segment);
            proof {
                lemma_product_bound(run as int, other_up as int, 1_500_000_000_000, 1_000_000);
                lemma_product_bound(other_run as int, up as int, 1_500_000_000_000, 1_000_000);
            }
            (run as i128) * (other_up as i128) == (other_run as i128) * (up as i128)
        }
    }

    /// Whether the level ray from this corner to the right crosses
    /// `segment`.
    pub fn crosses(&self, segment: &Edge) -> (crossing: bool)
        requires
            self.wf(),
            segment.0.in_bounds(),
            segment.1.in_bounds(),
        ensures
            crossing == self.ray_crosses(*segment),
    {
        if (segment.0.y >= self.y) == (segment.1.y >= self.y) {
            return false;
        }
        is_left_or_on(&self.line, segment, self.y)
    }
}

impl Trapezoid {
    /// Both sides are slanted and in bounds, and the bottom is not above
    /// the top.
    pub open spec fn wf(self) -> bool {
        &&& slanted(self.left)
        &&& slanted(self.right)
        &&& -COORDINATE_MAX <= self.bottom <= self.top <= COORDINATE_MAX
    }

    /// The part at the height `y` and above, and the part below.
    pub open spec fn cut_level(self, y: i64) -> (Trapezoid, Trapezoid) {
        (
            Trapezoid { left: self.left, right: self.right, top: self.top, bottom: y },
            Trapezoid { left: self.left, right: self.right, top: y, bottom: self.bottom },
        )
    }

    /// The corners: top left, top right, bottom right, bottom left.
    pub open spec fn corners(self) -> Seq<Corner> {
        seq![
            Corner { line: self.left, y: self.top },
            Corner { line: self.right, y: self.top },
            Corner { line: self.right, y: self.bottom },
            Corner { line: self.left, y: self.bottom },
        ]
    }

    /// Whether `segment` meets the level edge of the trapezoid at the
    /// height `y`, ends included: it reaches that height, and there it is
    /// neither to the left of the left side nor to the right of the right
    /// side.
    pub open spec fn meets_level(self, segment: Edge, y: int) -> bool {
        &&& segment.0.y != segment.1.y
        &&& spans(segment, y)
        &&& left_or_on(self.left, segment, y)
        &&& left_or_on(segment, self.right, y)
    }

    /// Whether `segment` goes through the trapezoid from its top edge to
    /// its bottom edge. A level segment never does.
    pub open spec fn crossed_by(self, segment: Edge) -> bool {
        self.meets_level(segment, self.top as int) && self.meets_level(segment, self.bottom as int)
    }

    /// The part to the left of `segment` and the part to its right, where
    /// `segment` goes through the trapezoid.
    pub open spec fn cut_along(self, segment: Edge) -> Option<(Trapezoid, Trapezoid)> {
        if self.crossed_by(segment) {
            Some(
                (
                    Trapezoid {
                        left: self.left,
                        right: segment,
                        top: self.top,
                        bottom: self.bottom,
                    },
                    Trapezoid {
                        left: segment,
                        right: self.right,
                        top: self.top,
                        bottom: self.bottom,
                    },
                ),
            )
        } else {
            None
        }
    }

    /// Whether `point` lies in the trapezoid, its boundary included.
    pub open spec fn holds(self, point: Point) -> bool {
        &&& self.bottom <= point.y <= self.top
        &&& !right_of(point, self.right)
        &&& (right_of(point, self.left) || on_the_line(point, self.left))
    }

    /// The trapezoid that holds every point in bounds.
    pub fn whole_plane() -> (all: Trapezoid)
        ensures
            all.wf(),
            all == everything(),
    {
        Trapezoid {
            left: Edge(
                Point { x: -COORDINATE_MAX, y: COORDINATE_MAX },
                Point { x: -COORDINATE_MAX, y: -COORDINATE_MAX },
            ),
            right: Edge(
                Point { x: COORDINATE_MAX, y: COORDINATE_MAX },
                Point { x: COORDINATE_MAX, y: -COORDINATE_MAX },
            ),
            top: COORDINATE_MAX,
            bottom: -COORDINATE_MAX,
        }
    }

    /// The part at the height `y` and above, and the part below.
    pub fn split_vertically(&self, y: i64) -> (parts: (Trapezoid, Trapezoid))
        requires
            self.wf(),
            self.bottom <= y <= self.top,
        ensures
            parts == self.cut_level(y),
            parts.0.wf(),
            parts.1.wf(),
    {
        (
            Trapezoid { left: self.left, right: self.right, top: self.top, bottom: y },
            Trapezoid { left: self.left, right: self.right, top: y, bottom: self.bottom },
        )
    }

    /// The corners: top left, top right, bottom right, bottom left.
    pub fn vertices(&self) -> (corners: [Corner; 4])
        requires
            self.wf(),
        ensures
            corners@ == self.corners(),
            forall|i: int| 0 <= i < 4 ==> (#[trigger] corners@[i]).wf(),
    {
        let corners = [
            Corner { line: self.left, y: self.top },
            Corner { line: self.right, y: self.top },
            Corner { line: self.right, y: self.bottom },
            Corner { line: self.left, y: self.bottom },
        ];
        assert(corners@ =~= self.corners());
        corners
    }

    /// Whether `segment` meets the level edge at the height `y`.
    pub fn segment_meets_level(&self, segment: &Edge, y: i64) -> (meets: bool)
        requires
            self.wf(),
            segment.0.in_bounds(),
            segment.1.in_bounds(),
            height_in_bounds(y as int),
        ensures
            meets == self.meets_level(*segment, y as int),
    {
        if segment.0.y == segment.1.y {
            return false;
        }
        let within = (segment.0.y <= y && y <= segment.1.y) || (segment.1.y <= y && y
            <= segment.0.y);
        within && is_left_or_on(&self.left, segment, y) && is_left_or_on(segment, &self.right, y)
    }

    /// Whether `segment` goes through the trapezoid from top to bottom.
    pub fn segment_intersects_horizontal_edges(&self, segment: Edge) -> (through: bool)
        requires
            self.wf(),
            segment.0.in_bounds(),
            segment.1.in_bounds(),
        ensures
            through == self.crossed_by(segment),
    {
        self.segment_meets_level(&segment, self.top) && self.segment_meets_level(
            &segment,
            self.bottom,
        )
    }

    /// The part to the left of `segment` and the part to its right, where
    /// `segment` goes through the trapezoid.
    pub fn split_horizontally(&self, segment: Edge) -> (parts: Option<(Trapezoid, Trapezoid)>)
        requires
            self.wf(),
            segment.0.in_bounds(),
            segment.1.in_bounds(),
        ensures
            parts == self.cut_along(segment),
            parts matches Some(pair) ==> pair.0.wf() && pair.1.wf(),
    {
        if self.segment_intersects_horizontal_edges(segment) {
            let left_trapezoid = Trapezoid {
                left: self.left,
                right: segment,
                top: self.top,
                bottom: self.bottom,
            };
            let right_trapezoid = Trapezoid {
                left: segment,
                right: self.right,
                top: self.top,
                bottom: self.bottom,
            };
            Some((left_trapezoid, right_trapezoid))
        } else {
            None
        }
    }
}

/// The trapezoid between the bounds of the coordinates.
pub open spec fn everything() -> Trapezoid {
    Trapezoid {
        left: Edge(
            Point { x: (-COORDINATE_MAX) as i64, y: COORDINATE_MAX },
            Point { x: (-COORDINATE_MAX) as i64, y: (-COORDINATE_MAX) as i64 },
        ),
        right: Edge(
            Point { x: COORDINATE_MAX, y: COORDINATE_MAX },
            Point { x: COORDINATE_MAX, y: (-COORDINATE_MAX) as i64 },
        ),
        top: COORDINATE_MAX,
        bottom: (-COORDINATE_MAX) as i64,
    }
}

/// Whether the step at `slot` leads on to later places of `nodes` only, and
/// past a slanted segment if past any.
pub open spec fn node_wf(nodes: Seq<QueryNode>, slot: int) -> bool {
    match nodes[slot] {
        QueryNode::X(segment, left, right) => slot < left < nodes.len() && slot < right
            < nodes.len() && slanted(segment),
        QueryNode::Y(_, above, below) => slot < above < nodes.len() && slot < below < nodes.len(),
        QueryNode::Trapezoid(_) => true,
    }
}

/// The number of the trapezoid in which the search for `point` ends that
/// starts at `slot`.
pub open spec fn locate(nodes: Seq<QueryNode>, slot: int, point: Point) -> usize
    decreases nodes.len() - slot,
{
    if 0 <= slot < nodes.len() && node_wf(nodes, slot) {
        match nodes[slot] {
            QueryNode::X(segment, left, right) => if right_of(point, segment) {
                locate(nodes, right as int, point)
            } else {
                locate(nodes, left as int, point)
            },
            QueryNode::Y(y, above, below) => if point.y >= y {
                locate(nodes, above as int, point)
            } else {
                locate(nodes, below as int, point)
            },
            QueryNode::Trapezoid(index) => index,
        }
    } else {
        0
    }
}

impl QueryStructure {
    /// There is a root, and every step leads on to later places only.
    pub open spec fn wf(&self) -> bool {
        &&& self.nodes@.len() >= 1
        &&& forall|slot: int| 0 <= slot < self.nodes@.len() ==> #[trigger] node_wf(self.nodes@, slot)
    }

    /// The number of the trapezoid in which the search for `point` ends.
    pub open spec fn found(&self, point: Point) -> usize {
        locate(self.nodes@, 0, point)
    }

    /// A structure whose every search ends in the trapezoid 0.
    pub fn new() -> (structure: QueryStructure)
        ensures
            structure.wf(),
            structure.nodes@ == seq![QueryNode::Trapezoid(0)],
    {
        let mut nodes: Vec<QueryNode> = Vec::new();
        nodes.push(QueryNode::Trapezoid(0));
        let structure = QueryStructure { nodes };
        assert(node_wf(structure.nodes@, 0));
        structure
    }

    /// The number of the trapezoid in which the search for `point` ends.
    pub fn query(&self, point: Point) -> (index: usize)
        requires
            self.wf(),
            point.in_bounds(),
        ensures
            index == self.found(point),
    {
        let mut slot: usize = 0;
        loop
            invariant
                self.wf(),
                point.in_bounds(),
                0 <= slot < self.nodes@.len(),
                locate(self.nodes@, slot as int, point) == self.found(point),
            decreases self.nodes@.len() - slot,
        {
            assert(node_wf(self.nodes@, slot as int));
            match self.nodes[slot] {
                QueryNode::X(segment, left, right) => {
                    if is_right_of(point, &segment) {
                        slot = right;
                    } else {
                        slot = left;
                    }
                },
                QueryNode::Y(y, above, below) => {
                    if point.y >= y {
                        slot = above;
                    } else {
                        slot = below;
                    }
                },
                QueryNode::Trapezoid(index) => {
                    return index;
                },
            }
        }
    }

    /// Replaces every end of the search in the trapezoid
    /// `original_trapezoid_index` by a step past `segment`, or, where
    /// `segment` is `None`, past the height `y`, that ends in the trapezoid
    /// `first_index` (to the left, or above) or `second_index`.
    pub fn insert_node(
        &mut self,
        original_trapezoid_index: usize,
        first_index: usize,
        second_index: usize,
        segment: Option<Edge>,
        y: i64,
    )
        requires
            old(self).wf(),
            segment matches Some(line) ==> slanted(line),
            first_index != original_trapezoid_index,
            second_index != original_trapezoid_index,
        ensures
            final(self).wf(),
            final(self).nodes@ == cut_nodes(
                old(self).nodes@,
                old(self).nodes@.len() as int,
                0,
                original_trapezoid_index,
                first_index,
                second_index,
                segment,
                y,
            ),
            forall|point: Point| #[trigger]
                final(self).found(point) == moved_on(
                    old(self).found(point),
                    point,
                    original_trapezoid_index,
                    first_index,
                    second_index,
                    segment,
                    y,
                ),
    {
        let count = self.nodes.len();
        let ghost before = self.nodes@;
        let mut slot: usize = 0;
        while slot < count
            invariant
                count == before.len(),
                segment matches Some(line) ==> slanted(line),
                first_index != original_trapezoid_index,
                second_index != original_trapezoid_index,
                forall|s: int| 0 <= s < before.len() ==> #[trigger] node_wf(before, s),
                0 <= slot <= count,
                self.nodes@.len() >= count,
                forall|s: int| 0 <= s < self.nodes@.len() ==> #[trigger] node_wf(self.nodes@, s),
                forall|s: int| slot <= s < count ==> self.nodes@[s] == before[s],
                cut_nodes(
                    self.nodes@,
                    count as int,
                    slot as int,
                    original_trapezoid_index,
                    first_index,
                    second_index,
                    segment,
                    y,
                ) == cut_nodes(
                    before,
                    count as int,
                    0,
                    original_trapezoid_index,
                    first_index,
                    second_index,
                    segment,
                    y,
                ),
                forall|s: int|
                    0 <= s < slot ==> replaced(
                        before[s],
                        #[trigger] self.nodes@[s],
                        self.nodes@,
                        original_trapezoid_index,
                        first_index,
                        second_index,
                        segment,
                        y,
                    ),
                forall|s: int|
                    count <= s < self.nodes@.len() ==> (#[trigger] self.nodes@[s]
                        == QueryNode::Trapezoid(first_index) || self.nodes@[s]
                        == QueryNode::Trapezoid(second_index)),
            decreases count - slot,
        {
            let ghost nodes_before = self.nodes@;
            let here = self.nodes[slot];
            let is_end = match here {
                QueryNode::Trapezoid(index) => index == original_trapezoid_index,
                _ => false,
            };
            if is_end {
                let first_slot = self.nodes.len();
                self.nodes.push(QueryNode::Trapezoid(first_index));
                let second_slot = self.nodes.len();
                self.nodes.push(QueryNode::Trapezoid(second_index));
                let step = match segment {
                    Some(line) => QueryNode::X(line, first_slot, second_slot),
                    None => QueryNode::Y(y, first_slot, second_slot),
                };
                self.nodes.set(slot, step);
                proof {
                    assert forall|s: int| 0 <= s < self.nodes@.len() implies #[trigger] node_wf(
                        self.nodes@,
                        s,
                    ) by {
                        if s < nodes_before.len() && s != slot {
                            assert(node_wf(nodes_before, s));
                            assert(self.nodes@[s] == nodes_before[s]);
                        }
                    }
                    assert forall|s: int| 0 <= s < slot implies replaced(
                        before[s],
                        #[trigger] self.nodes@[s],
                        self.nodes@,
                        original_trapezoid_index,
                        first_index,
                        second_index,
                        segment,
                        y,
                    ) by {
                        assert(self.nodes@[s] == nodes_before[s]);
                        assert(replaced(
                            before[s],
                            nodes_before[s],
                            nodes_before,
                            original_trapezoid_index,
                            first_index,
                            second_index,
                            segment,
                            y,
                        ));
                        assert(node_wf(nodes_before, s));
                    }
                }
            }
            slot += 1;
        }
        proof {
            let after = self.nodes@;
            assert forall|point: Point| #[trigger]
                locate(after, 0, point) == moved_on(
                    locate(before, 0, point),
                    point,
                    original_trapezoid_index,
                    first_index,
                    second_index,
                    segment,
                    y,
                ) by {
                lemma_locate_after(
                    before,
                    after,
                    0,
                    point,
                    original_trapezoid_index,
                    first_index,
                    second_index,
                    segment,
                    y,
                );
            }
        }
    }

    /// See [`QueryStructure::insert_node`], for a step past a height.
    pub fn insert_y_node(
        &mut self,
        original_trapezoid_index: usize,
        trapezoid_above_index: usize,
        trapezoid_below_index: usize,
        y: i64,
    )
        requires
            old(self).wf(),
            trapezoid_above_index != original_trapezoid_index,
            trapezoid_below_index != original_trapezoid_index,
        ensures
            final(self).wf(),
            final(self).nodes@ == cut_nodes(
                old(self).nodes@,
                old(self).nodes@.len() as int,
                0,
                original_trapezoid_index,
                trapezoid_above_index,
                trapezoid_below_index,
                None,
                y,
            ),
            forall|point: Point| #[trigger]
                final(self).found(point) == if old(self).found(point) == original_trapezoid_index {
                    if point.y >= y {
                        trapezoid_above_index
                    } else {
                        trapezoid_below_index
                    }
                } else {
                    old(self).found(point)
                },
    {
        self.insert_node(
            original_trapezoid_index,
            trapezoid_above_index,
            trapezoid_below_index,
            None,
            y,
        );
    }

    /// See [`QueryStructure::insert_node`], for a step past a segment.
    pub fn insert_x_node(
        &mut self,
        original_trapezoid_index: usize,
        trapezoid_left_index: usize,
        trapezoid_right_index: usize,
        segment: Edge,
    )
        requires
            old(self).wf(),
            slanted(segment),
            trapezoid_left_index != original_trapezoid_index,
            trapezoid_right_index != original_trapezoid_index,
        ensures
            final(self).wf(),
            final(self).nodes@ == cut_nodes(
                old(self).nodes@,
                old(self).nodes@.len() as int,
                0,
                original_trapezoid_index,
                trapezoid_left_index,
                trapezoid_right_index,
                Some(segment),
                0,
            ),
            forall|point: Point| #[trigger]
                final(self).found(point) == if old(self).found(point) == original_trapezoid_index {
                    if right_of(point, segment) {
                        trapezoid_right_index
                    } else {
                        trapezoid_left_index
                    }
                } else {
                    old(self).found(point)
                },
    {
        self.insert_node(
            original_trapezoid_index,
            trapezoid_left_index,
            trapezoid_right_index,
            Some(segment),
            0,
        );
    }
}

/// The steps `nodes` after every end of the search in the trapezoid
/// `original` among the places from `slot` to `count` was replaced by a
/// step past `segment`, or past the height `y` where there is no segment,
/// to two new ends at the end of the steps: in `first_index` and in
/// `second_index`.
pub open spec fn cut_nodes(
    nodes: Seq<QueryNode>,
    count: int,
    slot: int,
    original: usize,
    first_index: usize,
    second_index: usize,
    segment: Option<Edge>,
    y: i64,
) -> Seq<QueryNode>
    decreases count - slot,
{
    if slot < 0 || slot >= count || slot >= nodes.len() {
        nodes
    } else if nodes[slot] == QueryNode::Trapezoid(original) {
        let step = match segment {
            Some(line) => QueryNode::X(line, nodes.len() as usize, (nodes.len() + 1) as usize),
            None => QueryNode::Y(y, nodes.len() as usize, (nodes.len() + 1) as usize),
        };
        cut_nodes(
            nodes.push(QueryNode::Trapezoid(first_index)).push(
                QueryNode::Trapezoid(second_index),
            ).update(slot, step),
            count,
            slot + 1,
            original,
            first_index,
            second_index,
            segment,
            y,
        )
    } else {
        cut_nodes(nodes, count, slot + 1, original, first_index, second_index, segment, y)
    }
}

/// Where a search that ended in the trapezoid `found` ends after the
/// trapezoid `original` was cut.
pub open spec fn moved_on(
    found: usize,
    point: Point,
    original: usize,
    first_index: usize,
    second_index: usize,
    segment: Option<Edge>,
    y: i64,
) -> usize {
    if found == original {
        match segment {
            Some(line) => if right_of(point, line) {
                second_index
            } else {
                first_index
            },
            None => if point.y >= y {
                first_index
            } else {
                second_index
            },
        }
    } else {
        found
    }
}

/// Whether `now` is what became of the step `was` when the trapezoid
/// `original` was cut: an end in `original` became a step to two new ends,
/// and every other step stayed.
pub open spec fn replaced(
    was: QueryNode,
    now: QueryNode,
    nodes: Seq<QueryNode>,
    original: usize,
    first_index: usize,
    second_index: usize,
    segment: Option<Edge>,
    y: i64,
) -> bool {
    if was == QueryNode::Trapezoid(original) {
        match segment {
            Some(line) => now matches QueryNode::X(l, a, b) && l == line && 0 <= a < nodes.len()
                && 0 <= b < nodes.len() && nodes[a as int] == QueryNode::Trapezoid(first_index)
                && nodes[b as int] == QueryNode::Trapezoid(second_index),
            None => now matches QueryNode::Y(h, a, b) && h == y && 0 <= a < nodes.len() && 0 <= b
                < nodes.len() && nodes[a as int] == QueryNode::Trapezoid(first_index)
                && nodes[b as int] == QueryNode::Trapezoid(second_index),
        }
    } else {
        now == was
    }
}

/// After the trapezoid `original` was cut, a search ends where it ended
/// before, or, where it ended in `original`, in one of the two parts.
pub proof fn lemma_locate_after(
    before: Seq<QueryNode>,
    after: Seq<QueryNode>,
    slot: int,
    point: Point,
    original: usize,
    first_index: usize,
    second_index: usize,
    segment: Option<Edge>,
    y: i64,
)
    requires
        0 <= slot < before.len() <= after.len(),
        first_index != original,
        second_index != original,
        forall|s: int| 0 <= s < before.len() ==> #[trigger] node_wf(before, s),
        forall|s: int| 0 <= s < after.len() ==> #[trigger] node_wf(after, s),
        forall|s: int|
            0 <= s < before.len() ==> replaced(
                before[s],
                #[trigger] after[s],
                after,
                original,
                first_index,
                second_index,
                segment,
                y,
            ),
    ensures
        locate(after, slot, point) == moved_on(
            locate(before, slot, point),
            point,
            original,
            first_index,
            second_index,
            segment,
            y,
        ),
    decreases before.len() - slot,
{
    assert(node_wf(before, slot));
    assert(node_wf(after, slot));
    assert(replaced(
        before[slot],
        after[slot],
        after,
        original,
        first_index,
        second_index,
        segment,
        y,
    ));
    match before[slot] {
        QueryNode::X(line, left, right) => {
            if right_of(point, line) {
                lemma_locate_after(
                    before,
                    after,
                    right as int,
                    point,
                    original,
                    first_index,
                    second_index,
                    segment,
                    y,
                );
            } else {
                lemma_locate_after(
                    before,
                    after,
                    left as int,
                    point,
                    original,
                    first_index,
                    second_index,
                    segment,
                    y,
                );
            }
        },
        QueryNode::Y(h, above, below) => {
            if point.y >= h {
                lemma_locate_after(
                    before,
                    after,
                    above as int,
                    point,
                    original,
                    first_index,
                    second_index,
                    segment,
                    y,
                );
            } else {
                lemma_locate_after(
                    before,
                    after,
                    below as int,
                    point,
                    original,
                    first_index,
                    second_index,
                    segment,
                    y,
                );
            }
        },
        QueryNode::Trapezoid(index) => {
            reveal_with_fuel(locate, 3);
            if index == original {
                match after[slot] {
                    QueryNode::X(l, a, b) => {
                        assert(node_wf(after, a as int));
                        assert(node_wf(after, b as int));
                        assert(locate(after, a as int, point) == first_index);
                        assert(locate(after, b as int, point) == second_index);
                    },
                    QueryNode::Y(h, a, b) => {
                        assert(node_wf(after, a as int));
                        assert(node_wf(after, b as int));
                        assert(locate(after, a as int, point) == first_index);
                        assert(locate(after, b as int, point) == second_index);
                    },
                    QueryNode::Trapezoid(_) => {},
                }
            }
        },
    }
}

} // verus!
