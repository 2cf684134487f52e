//! Points, vectors and the exact predicates on them.

use vstd::arithmetic::div_mod::lemma_fundamental_div_mod_converse;
use vstd::prelude::*;

verus! {

/// Largest absolute value a coordinate of a point may have.
pub const COORDINATE_MAX: i64 = 500_000;

/// Largest absolute value a component of a vector may have: the difference
/// of two points in bounds.
pub const COMPONENT_MAX: i64 = 1_000_000;

/// A position on the lattice.
#[derive(Clone, Copy, Debug, PartialEq, Eq, Hash, Structural)]
pub struct Point {
    pub x: i64,
    pub y: i64,
}

/// A displacement between two positions.
#[derive(Clone, Copy, Debug, PartialEq, Eq, Hash, Structural)]
pub struct Vector {
    pub x: i64,
    pub y: i64,
}

/// `u.x * v.y - u.y * v.x`: positive when `v` points to the left of `u`.
pub open spec fn cross(u: Vector, v: Vector) -> int {
    u.x * v.y - u.y * v.x
}

/// `u.x * v.x + u.y * v.y`.
pub open spec fn dot(u: Vector, v: Vector) -> int {
    u.x * v.x + u.y * v.y
}

/// The displacement that leads from `from` to `to`.
pub open spec fn displacement(from: Point, to: Point) -> Vector {
    Vector { x: (to.x - from.x) as i64, y: (to.y - from.y) as i64 }
}

/// Whether `point` lies on the closed segment that starts at `start` and
/// spans `direction`. A segment of length zero holds its start only.
pub open spec fn on_segment(point: Point, start: Point, direction: Vector) -> bool {
    if direction.x == 0 && direction.y == 0 {
        point == start
    } else {
        let to_point = displacement(start, point);
        &&& cross(to_point, direction) == 0
        &&& 0 <= dot(to_point, direction) <= dot(direction, direction)
    }
}

pub proof fn lemma_product_bound(a: int, b: int, bound_a: int, bound_b: int)
    requires
        -bound_a <= a <= bound_a,
        -bound_b <= b <= bound_b,
    ensures
        -(bound_a * bound_b) <= a * b <= bound_a * bound_b,
{
    assert(-(bound_a * bound_b) <= a * b <= bound_a * bound_b) by (nonlinear_arith)
        requires
            -bound_a <= a <= bound_a,
            -bound_b <= b <= bound_b,
    ;
}

impl Point {
    /// Within the square of side `2 * COORDINATE_MAX` around the origin.
    pub open spec fn in_bounds(self) -> bool {
        &&& -COORDINATE_MAX <= self.x <= COORDINATE_MAX
        &&& -COORDINATE_MAX <= self.y <= COORDINATE_MAX
    }

    pub fn new(x: i64, y: i64) -> (point: Point)
        ensures
            point.x == x,
            point.y == y,
    {
        Point { x, y }
    }

    pub fn is_in_bounds(&self) -> (inside: bool)
        ensures
            inside == self.in_bounds(),
    {
        -COORDINATE_MAX <= self.x && self.x <= COORDINATE_MAX && -COORDINATE_MAX <= self.y
            && self.y <= COORDINATE_MAX
    }

    /// The displacement that leads from `origin` to this point.
    pub fn minus(&self, origin: &Point) -> (v: Vector)
        requires
            self.in_bounds(),
            origin.in_bounds(),
        ensures
            v == displacement(*origin, *self),
            v.in_bounds(),
            v.x == self.x - origin.x,
            v.y == self.y - origin.y,
    {
        Vector { x: self.x - origin.x, y: self.y - origin.y }
    }

    /// This point moved by `v`, each coordinate held within bounds.
    pub fn moved_by(&self, v: &Vector) -> (point: Point)
        requires
            self.in_bounds(),
            v.in_bounds(),
        ensures
            point == translate(*self, *v),
            point.in_bounds(),
    {
        Point { x: clamp_coordinate(self.x + v.x), y: clamp_coordinate(self.y + v.y) }
    }
}

impl Vector {
    /// Each component is at most `COMPONENT_MAX` in absolute value.
    pub open spec fn in_bounds(self) -> bool {
        &&& -COMPONENT_MAX <= self.x <= COMPONENT_MAX
        &&& -COMPONENT_MAX <= self.y <= COMPONENT_MAX
    }

    pub fn new(x: i64, y: i64) -> (v: Vector)
        ensures
            v.x == x,
            v.y == y,
    {
        Vector { x, y }
    }

    pub fn is_in_bounds(&self) -> (inside: bool)
        ensures
            inside == self.in_bounds(),
    {
        -COMPONENT_MAX <= self.x && self.x <= COMPONENT_MAX && -COMPONENT_MAX <= self.y
            && self.y <= COMPONENT_MAX
    }

    pub fn is_zero(&self) -> (zero: bool)
        ensures
            zero == (self.x == 0 && self.y == 0),
    {
        self.x == 0 && self.y == 0
    }
}

/// `value` brought into the range of a coordinate.
pub open spec fn clamped(value: int) -> int {
    if value < -COORDINATE_MAX {
        -COORDINATE_MAX as int
    } else if value > COORDINATE_MAX {
        COORDINATE_MAX as int
    } else {
        value
    }
}

/// `point` moved by `v`, each coordinate held within bounds.
pub open spec fn translate(point: Point, v: Vector) -> Point {
    Point { x: clamped(point.x + v.x) as i64, y: clamped(point.y + v.y) as i64 }
}

pub fn clamp_coordinate(value: i64) -> (c: i64)
    ensures
        c == clamped(value as int),
        -COORDINATE_MAX <= c <= COORDINATE_MAX,
{
    if value < -COORDINATE_MAX {
        -COORDINATE_MAX
    } else if value > COORDINATE_MAX {
        COORDINATE_MAX
    } else {
        value
    }
}

/// `n / d` rounded to the nearest integer, halves upwards; `d` is positive.
pub open spec fn round_div(n: int, d: int) -> int {
    (2 * n + d) / (2 * d)
}

/// Largest absolute value of a numerator handed to [`div_round`].
pub const NUMERATOR_MAX: i128 = 1_000_000_000_000_000_000_000_000_000_000;

/// `n / d` rounded to the nearest integer, halves upwards.
pub fn div_round(n: i128, d: i128) -> (q: i128)
    requires
        0 < d <= NUMERATOR_MAX,
        -NUMERATOR_MAX <= n <= NUMERATOR_MAX,
    ensures
        q == round_div(n as int, d as int),
{
    let twice: i128 = 2 * n + d;
    let divisor: i128 = 2 * d;
    if twice >= 0 {
        let q: u128 = (twice as u128) / (divisor as u128);
        q as i128
    } else {
        let positive: u128 = (-twice) as u128;
        let by: u128 = divisor as u128;
        let up: u128 = (positive + by - 1) / by;
        proof {
            let rest = (positive + by - 1) as int % by as int;
            assert(0 <= rest < by) by {
                vstd::arithmetic::div_mod::lemma_mod_bound((positive + by - 1) as int, by as int);
            }
            assert(positive + by - 1 == by * up + rest) by {
                vstd::arithmetic::div_mod::lemma_fundamental_div_mod(
                    (positive + by - 1) as int,
                    by as int,
                );
            }
            let r = up * by - positive;
            assert(0 <= r < by) by (nonlinear_arith)
                requires
                    positive + by - 1 == by * up + rest,
                    0 <= rest < by,
                    r == up * by - positive,
            ;
            assert(twice == (-(up as int)) * divisor + r) by (nonlinear_arith)
                requires
                    r == up * by - positive,
                    twice == -(positive as int),
                    by == divisor,
            ;
            lemma_fundamental_div_mod_converse(twice as int, divisor as int, -(up as int), r);
        }
        -(up as i128)
    }
}

/// A quotient rounded to the nearest integer is no farther from zero than
/// the bound of the fraction.
pub proof fn lemma_round_div_bound(n: int, d: int, bound: int)
    requires
        d > 0,
        bound >= 0,
        -(bound * d) <= n <= bound * d,
    ensures
        -bound <= round_div(n, d) <= bound,
{
    let q = round_div(n, d);
    vstd::arithmetic::div_mod::lemma_fundamental_div_mod(2 * n + d, 2 * d);
    let r = (2 * n + d) % (2 * d);
    assert(0 <= r < 2 * d) by {
        vstd::arithmetic::div_mod::lemma_mod_bound(2 * n + d, 2 * d);
    }
    assert(-bound <= q <= bound) by (nonlinear_arith)
        requires
            2 * n + d == (2 * d) * q + r,
            0 <= r < 2 * d,
            d > 0,
            bound >= 0,
            -(bound * d) <= n <= bound * d,
    ;
}

/// Whether `r` is the integer square root of `n`: the largest integer whose
/// square is at most `n`.
pub open spec fn is_root(n: int, r: int) -> bool {
    r >= 0 && r * r <= n < (r + 1) * (r + 1)
}

/// The integer square root of `n`, for `n >= 0`.
pub open spec fn root(n: int) -> int {
    choose|r: int| is_root(n, r)
}

/// The least integer whose square is at least `n`, for `n >= 0`.
pub open spec fn root_up(n: int) -> int {
    if root(n) * root(n) == n {
        root(n)
    } else {
        root(n) + 1
    }
}

/// A number has one integer square root.
pub proof fn lemma_root_unique(n: int, r: int, s: int)
    requires
        is_root(n, r),
        is_root(n, s),
    ensures
        r == s,
{
    assert(r == s) by (nonlinear_arith)
        requires
            r >= 0,
            s >= 0,
            r * r <= n < (r + 1) * (r + 1),
            s * s <= n < (s + 1) * (s + 1),
    ;
}

/// Largest number handed to [`integer_root`].
pub const RADICAND_MAX: u128 = 1_000_000_000_000_000_000_000_000_000_000;

/// The integer square root of `n`.
pub fn integer_root(n: u128) -> (r: u64)
    requires
        n <= RADICAND_MAX,
    ensures
        is_root(n as int, r as int),
        r == root(n as int),
{
    let mut low: u128 = 0;
    let mut high: u128 = 1_000_000_000_000_001;
    assert(high * high > n) by (nonlinear_arith)
        requires
            high == 1_000_000_000_000_001,
            n <= 1_000_000_000_000_000_000_000_000_000_000,
    ;
    while high - low > 1
        invariant
            0 <= low < high <= 1_000_000_000_000_001,
            low * low <= n < high * high,
        decreases high - low,
    {
        let middle: u128 = low + (high - low) / 2;
        assert(middle * middle <= 1_000_000_000_000_001 * 1_000_000_000_000_001)
            by (nonlinear_arith)
            requires
                0 <= middle <= 1_000_000_000_000_001,
        ;
        if middle * middle <= n {
            low = middle;
        } else {
            high = middle;
        }
    }
    proof {
        assert(high == low + 1);
        assert(is_root(n as int, low as int));
        let chosen = root(n as int);
        assert(is_root(n as int, chosen));
        lemma_root_unique(n as int, low as int, chosen);
    }
    low as u64
}

/// The least integer whose square is at least `n`.
pub fn integer_root_up(n: u128) -> (r: u64)
    requires
        n <= RADICAND_MAX,
    ensures
        r == root_up(n as int),
        r * r >= n,
        r > 0 ==> (r - 1) * (r - 1) < n,
        n > 0 ==> r > 0,
{
    let low = integer_root(n);
    assert(low * low <= 1_000_000_000_000_001 * 1_000_000_000_000_001) by (nonlinear_arith)
        requires
            0 <= low,
            low * low <= n,
            n <= 1_000_000_000_000_000_000_000_000_000_000,
    ;
    if (low as u128) * (low as u128) == n {
        assert(low > 0 ==> (low - 1) * (low - 1) < low * low) by (nonlinear_arith);
        assert(low == 0 ==> low * low == 0) by (nonlinear_arith);
        low
    } else {
        assert(low + 1 <= 1_000_000_000_000_001) by (nonlinear_arith)
            requires
                0 <= low,
                low * low <= n,
                n <= 1_000_000_000_000_000_000_000_000_000_000,
        ;
        low + 1
    }
}

/// The cross product of two vectors in bounds.
pub fn cross_2d(u: Vector, v: Vector) -> (c: i64)
    requires
        u.in_bounds(),
        v.in_bounds(),
    ensures
        c == cross(u, v),
        -2_000_000_000_000 <= c <= 2_000_000_000_000,
{
    proof {
        lemma_product_bound(u.x as int, v.y as int, COMPONENT_MAX as int, COMPONENT_MAX as int);
        lemma_product_bound(u.y as int, v.x as int, COMPONENT_MAX as int, COMPONENT_MAX as int);
    }
    u.x * v.y - u.y * v.x
}

/// The dot product of two vectors in bounds.
pub fn dot_2d(u: Vector, v: Vector) -> (d: i64)
    requires
        u.in_bounds(),
        v.in_bounds(),
    ensures
        d == dot(u, v),
        -2_000_000_000_000 <= d <= 2_000_000_000_000,
{
    proof {
        lemma_product_bound(u.x as int, v.x as int, COMPONENT_MAX as int, COMPONENT_MAX as int);
        lemma_product_bound(u.y as int, v.y as int, COMPONENT_MAX as int, COMPONENT_MAX as int);
    }
    u.x * v.x + u.y * v.y
}

/// The size of one component of a vector of length `margin` that points
/// along a vector with the component `c` and the squared length
/// `squared_length`: `|c| * margin / sqrt(squared_length)`, rounded to the
/// nearest integer, with the sign of `c`. Zero for the zero vector.
pub open spec fn unit_component(c: int, squared_length: int, margin: int) -> int {
    if squared_length == 0 {
        0
    } else {
        let size = (root(4 * c * c * margin * margin / squared_length) + 1) / 2;
        if c >= 0 {
            size
        } else {
            -size
        }
    }
}

/// The vector of length `margin` along `v`, each component rounded to the
/// nearest integer. Zero when `v` is zero.
pub open spec fn scaled_unit(v: Vector, margin: int) -> Vector {
    Vector {
        x: unit_component(v.x as int, dot(v, v), margin) as i64,
        y: unit_component(v.y as int, dot(v, v), margin) as i64,
    }
}

/// One component of the vector of length `margin` along a vector.
pub fn component_of_unit(c: i64, squared_length: i64, margin: i64) -> (part: i64)
    requires
        -COMPONENT_MAX <= c <= COMPONENT_MAX,
        c * c <= squared_length <= 2_000_000_000_000,
        0 <= margin <= 1_000,
    ensures
        part == unit_component(c as int, squared_length as int, margin as int),
        -margin <= part <= margin,
{
    if squared_length == 0 {
        return 0;
    }
    proof {
        lemma_product_bound(c as int, c as int, COMPONENT_MAX as int, COMPONENT_MAX as int);
        lemma_product_bound(margin as int, margin as int, 1_000, 1_000);
        assert(0 <= c * c) by (nonlinear_arith);
        assert(0 <= margin * margin) by (nonlinear_arith);
        lemma_product_bound(c * c, margin * margin, 1_000_000_000_000, 1_000_000);
        assert(0 <= (c * c) * (margin * margin)) by (nonlinear_arith)
            requires
                0 <= c * c,
                0 <= margin * margin,
        ;
        assert(4 * c * c * margin * margin == 4 * ((c * c) * (margin * margin)))
            by (nonlinear_arith);
    }
    let square: u128 = (c as i128 * c as i128) as u128;
    let scale: u128 = (margin as i128 * margin as i128) as u128;
    let numerator: u128 = 4 * (square * scale);
    let quotient: u128 = numerator / (squared_length as u128);
    proof {
        let ss = squared_length as int;
        let mm = (margin * margin) as int;
        assert(numerator <= 4 * mm * ss) by (nonlinear_arith)
            requires
                numerator == 4 * (square * scale),
                square == c * c,
                scale == mm,
                c * c <= ss,
                mm >= 0,
        ;
        vstd::arithmetic::div_mod::lemma_div_is_ordered(numerator as int, 4 * mm * ss, ss);
        vstd::arithmetic::div_mod::lemma_div_multiples_vanish(4 * mm, ss);
        assert(4 * mm * ss == ss * (4 * mm)) by (nonlinear_arith);
        assert(quotient <= 4 * mm);
        assert(quotient == 4 * c * c * margin * margin / (squared_length as int));
    }
    let low = integer_root(quotient);
    proof {
        assert(low <= 2 * margin) by (nonlinear_arith)
            requires
                low >= 0,
                margin >= 0,
                low * low <= quotient,
                quotient <= 4 * (margin * margin),
        ;
    }
    let size: i64 = ((low + 1) / 2) as i64;
    if c >= 0 {
        size
    } else {
        -size
    }
}

/// The vector of length `margin` along `v`.
pub fn unit_vector(v: Vector, margin: i64) -> (unit: Vector)
    requires
        v.in_bounds(),
        0 <= margin <= 1_000,
    ensures
        unit == scaled_unit(v, margin as int),
        -margin <= unit.x <= margin,
        -margin <= unit.y <= margin,
        unit.in_bounds(),
{
    let squared_length = dot_2d(v, v);
    proof {
        assert(v.x * v.x >= 0) by (nonlinear_arith);
        assert(v.y * v.y >= 0) by (nonlinear_arith);
    }
    Vector {
        x: component_of_unit(v.x, squared_length, margin),
        y: component_of_unit(v.y, squared_length, margin),
    }
}

/// Whether `point` lies on the closed segment from `line_start` along
/// `line_direction`.
pub fn on_line(point: Point, line_start: Point, line_direction: Vector) -> (on: bool)
    requires
        point.in_bounds(),
        line_start.in_bounds(),
        line_direction.in_bounds(),
    ensures
        on == on_segment(point, line_start, line_direction),
{
    if line_direction.is_zero() {
        return point == line_start;
    }
    let start_point_line = point.minus(&line_start);
    let cross_product = cross_2d(start_point_line, line_direction);
    let dot_product = dot_2d(start_point_line, line_direction);
    let line_distance_squared = dot_2d(line_direction, line_direction);
    cross_product == 0 && dot_product >= 0 && dot_product <= line_distance_squared
}

} // verus!
