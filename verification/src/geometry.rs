//! Integer lattice vectors and axis-aligned bounding boxes.
//!
//! Executable values carry 64-bit coordinates. Contracts speak of their
//! mathematical counterparts, [`Point`] and [`Box3`], whose coordinates are
//! unbounded integers.

use vstd::prelude::*;

verus! {

/// Largest coordinate magnitude a bounding box may have: `2^28`.
///
/// With corners inside this range every squared distance between two points of
/// a box, scaled by the number of gradient shells, still fits in 64 bits.
pub const COORD_LIMIT: i64 = 268_435_456;

/// Largest squared distance between two points of one bounding box:
/// `3 * (2 * COORD_LIMIT)^2`.
pub const DIST2_LIMIT: i64 = 864_691_128_455_135_232;

/// Largest component, and largest new length, of a vector that can be given
/// a length: `2^30`, four times the coordinate limit.
pub const LENGTH_LIMIT: i64 = 1_073_741_824;

/// `a / 2` rounded toward zero.
pub open spec fn half_toward_zero(a: int) -> int {
    if a >= 0 {
        a / 2
    } else {
        -((-a) / 2)
    }
}

/// The smallest of three integers.
pub open spec fn min3(a: int, b: int, c: int) -> int {
    if a <= b && a <= c {
        a
    } else if b <= c {
        b
    } else {
        c
    }
}

/// Whether `r` is at most `length * |c| / sqrt(n2)`: the share of a length
/// that falls to the component `c` of a vector of squared length `n2`.
pub open spec fn reaches(r: int, c: int, n2: int, length: int) -> bool {
    r * r * n2 <= length * length * (c * c)
}

/// The largest number from 0 to `bound` that `reaches`; 0 when there is none.
pub open spec fn largest_reach(bound: int, c: int, n2: int, length: int) -> int
    decreases bound,
{
    if bound <= 0 {
        0
    } else if reaches(bound, c, n2, length) {
        bound
    } else {
        largest_reach(bound - 1, c, n2, length)
    }
}

/// `length * c / sqrt(n2)` rounded toward zero: one component of a vector of
/// squared length `n2`, after the vector has been given the length `length`.
/// A zero component stays zero, so the zero vector stays the zero vector.
pub open spec fn resized(c: int, n2: int, length: int) -> int {
    if c == 0 {
        0
    } else if c > 0 {
        largest_reach(length, c, n2, length)
    } else {
        -largest_reach(length, c, n2, length)
    }
}

/// A point or direction in space, with unbounded integer coordinates.
pub struct Point {
    pub x: int,
    pub y: int,
    pub z: int,
}

impl Point {
    /// The origin of the lattice.
    pub open spec fn origin() -> Point {
        Point { x: 0, y: 0, z: 0 }
    }

    /// Component-wise sum.
    pub open spec fn plus(self, o: Point) -> Point {
        Point { x: self.x + o.x, y: self.y + o.y, z: self.z + o.z }
    }

    /// Component-wise difference.
    pub open spec fn minus(self, o: Point) -> Point {
        Point { x: self.x - o.x, y: self.y - o.y, z: self.z - o.z }
    }

    /// Squared Euclidean length.
    pub open spec fn norm2(self) -> int {
        self.x * self.x + self.y * self.y + self.z * self.z
    }

    /// Squared Euclidean distance to `o`.
    pub open spec fn dist2(self, o: Point) -> int {
        self.minus(o).norm2()
    }

    /// The vector in this direction whose length is `length`, every
    /// component rounded toward zero. The zero vector has no direction and
    /// stays as it is.
    pub open spec fn with_length(self, length: int) -> Point {
        Point {
            x: resized(self.x, self.norm2(), length),
            y: resized(self.y, self.norm2(), length),
            z: resized(self.z, self.norm2(), length),
        }
    }

    /// Every component lies in `[-limit, limit]`.
    pub open spec fn within(self, limit: int) -> bool {
        &&& -limit <= self.x <= limit
        &&& -limit <= self.y <= limit
        &&& -limit <= self.z <= limit
    }

    /// Every component is representable in 64 bits.
    pub open spec fn fits(self) -> bool {
        &&& i64::MIN <= self.x <= i64::MAX
        &&& i64::MIN <= self.y <= i64::MAX
        &&& i64::MIN <= self.z <= i64::MAX
    }

    /// Component-wise `self <= o`.
    pub open spec fn le(self, o: Point) -> bool {
        self.x <= o.x && self.y <= o.y && self.z <= o.z
    }
}

/// A point or direction on the integer lattice.
#[derive(Clone, Copy, Debug, PartialEq, Eq, Structural, Hash)]
pub struct Vec3 {
    pub x: i64,
    pub y: i64,
    pub z: i64,
}

impl View for Vec3 {
    type V = Point;

    open spec fn view(&self) -> Point {
        Point { x: self.x as int, y: self.y as int, z: self.z as int }
    }
}

impl Vec3 {
    /// The vector with the given components.
    pub fn new(x: i64, y: i64, z: i64) -> (v: Vec3)
        ensures
            v == (Vec3 { x, y, z }),
    {
        Vec3 { x, y, z }
    }

    /// Component-wise sum.
    pub fn plus(self, o: Vec3) -> (r: Vec3)
        requires
            self@.plus(o@).fits(),
        ensures
            r@ == self@.plus(o@),
    {
        Vec3 { x: self.x + o.x, y: self.y + o.y, z: self.z + o.z }
    }

    /// Component-wise difference.
    pub fn minus(self, o: Vec3) -> (r: Vec3)
        requires
            self@.minus(o@).fits(),
        ensures
            r@ == self@.minus(o@),
    {
        Vec3 { x: self.x - o.x, y: self.y - o.y, z: self.z - o.z }
    }

    /// Squared Euclidean distance to `o`.
    pub fn dist2(self, o: Vec3) -> (d: i64)
        requires
            self@.minus(o@).fits(),
            self@.dist2(o@) <= i64::MAX,
        ensures
            d == self@.dist2(o@),
    {
        let dx: i64 = self.x - o.x;
        let dy: i64 = self.y - o.y;
        let dz: i64 = self.z - o.z;
        proof {
            lemma_square_bounds(dx as int);
            lemma_square_bounds(dy as int);
            lemma_square_bounds(dz as int);
        }
        dx * dx + dy * dy + dz * dz
    }

    /// The vector in this direction whose length is `length`, every
    /// component rounded toward zero. The zero vector stays as it is.
    pub fn with_length(self, length: i64) -> (r: Vec3)
        requires
            self@.within(LENGTH_LIMIT as int),
            0 <= length <= LENGTH_LIMIT,
        ensures
            r@ == self@.with_length(length as int),
            r@.within(length as int),
    {
        proof {
            let m: int = 0x4000_0000;
            lemma_square_le(self.x as int, m);
            lemma_square_le(self.y as int, m);
            lemma_square_le(self.z as int, m);
            assert(m * m == 0x1000_0000_0000_0000) by (nonlinear_arith)
                requires
                    m == 0x4000_0000,
            ;
        }
        let x: i128 = self.x as i128;
        let y: i128 = self.y as i128;
        let z: i128 = self.z as i128;
        let n2: i128 = x * x + y * y + z * z;
        let reach_x = reach(self.x, n2, length);
        let reach_y = reach(self.y, n2, length);
        let reach_z = reach(self.z, n2, length);
        Vec3 { x: reach_x, y: reach_y, z: reach_z }
    }
}

/// `length * c / sqrt(n2)` rounded toward zero.
fn reach(c: i64, n2: i128, length: i64) -> (r: i64)
    requires
        -LENGTH_LIMIT <= c <= LENGTH_LIMIT,
        0 <= length <= LENGTH_LIMIT,
        c * c <= n2 <= 3 * 0x1000_0000_0000_0000int,
    ensures
        r == resized(c as int, n2 as int, length as int),
        -length <= r <= length,
{
    if c == 0 {
        return 0;
    }
    let ghost m: int = 0x4000_0000;
    proof {
        lemma_square_le(c as int, m);
        lemma_square_le(length as int, m);
        assert(m * m == 0x1000_0000_0000_0000) by (nonlinear_arith)
            requires
                m == 0x4000_0000,
        ;
        lemma_product_le(
            length as int * length as int,
            c as int * c as int,
            0x1000_0000_0000_0000,
            0x1000_0000_0000_0000,
        );
    }
    let wide: i128 = c as i128;
    let long: i128 = length as i128;
    let target: i128 = (long * long) * (wide * wide);
    let mut low: i64 = 0;
    let mut high: i64 = length + 1;
    proof {
        lemma_square_bounds(c as int);
        assert(reaches(0, c as int, n2 as int, length as int)) by {
            assert(0 <= (length as int * length as int) * (c as int * c as int)) by (nonlinear_arith)
                requires
                    0 <= length as int * length as int,
                    0 <= c as int * c as int,
            ;
        }
    }
    while high - low > 1
        invariant
            0 <= low < high <= length + 1,
            0 <= length <= LENGTH_LIMIT,
            m == 0x4000_0000,
            0 <= n2 <= 3 * 0x1000_0000_0000_0000int,
            target == (length as int * length as int) * (c as int * c as int),
            reaches(low as int, c as int, n2 as int, length as int),
            forall|s: int|
                high <= s <= length ==> !#[trigger] reaches(s, c as int, n2 as int, length as int),
        decreases high - low,
    {
        let middle: i64 = low + (high - low) / 2;
        proof {
            lemma_square_le(middle as int, m);
            assert(m * m == 0x1000_0000_0000_0000) by (nonlinear_arith)
                requires
                    m == 0x4000_0000,
            ;
        }
        let square: i128 = (middle as i128) * (middle as i128);
        proof {
            lemma_product_le(
                middle as int * middle as int,
                n2 as int,
                0x1000_0000_0000_0000,
                3 * 0x1000_0000_0000_0000int,
            );
        }
        if square * n2 <= target {
            low = middle;
        } else {
            proof {
                assert forall|s: int| middle <= s <= length implies !#[trigger] reaches(
                    s,
                    c as int,
                    n2 as int,
                    length as int,
                ) by {
                    lemma_reach_grows(middle as int, s, n2 as int);
                }
            }
            high = middle;
        }
    }
    proof {
        lemma_largest_reach(length as int, low as int, c as int, n2 as int, length as int);
    }
    if c > 0 {
        low
    } else {
        -low
    }
}

/// A product of numbers that are not negative grows with its factors.
proof fn lemma_product_le(a: int, b: int, a_max: int, b_max: int)
    requires
        0 <= a <= a_max,
        0 <= b <= b_max,
    ensures
        0 <= a * b <= a_max * b_max,
{
    assert(0 <= a * b <= a_max * b_max) by (nonlinear_arith)
        requires
            0 <= a <= a_max,
            0 <= b <= b_max,
    ;
}

/// What a smaller number needs to reach, a larger number needs no less.
proof fn lemma_reach_grows(r: int, s: int, n2: int)
    requires
        0 <= r <= s,
        0 <= n2,
    ensures
        r * r * n2 <= s * s * n2,
{
    assert(r * r <= s * s) by (nonlinear_arith)
        requires
            0 <= r <= s,
    ;
    assert((r * r) * n2 <= (s * s) * n2) by (nonlinear_arith)
        requires
            r * r <= s * s,
            0 <= n2,
    ;
}

/// The number that reaches while no larger number up to `bound` does is the
/// largest reach.
proof fn lemma_largest_reach(bound: int, r: int, c: int, n2: int, length: int)
    requires
        0 <= r <= bound,
        r == 0 || reaches(r, c, n2, length),
        forall|s: int| r < s <= bound ==> !#[trigger] reaches(s, c, n2, length),
    ensures
        largest_reach(bound, c, n2, length) == r,
    decreases bound - r,
{
    if bound > r {
        lemma_largest_reach(bound - 1, r, c, n2, length);
    }
}

/// A square is never negative, and positive unless its root is zero.
pub proof fn lemma_square_bounds(a: int)
    ensures
        a * a >= 0,
        a != 0 ==> a * a > 0,
        a == 0 ==> a * a == 0,
{
    assert(a * a >= 0) by (nonlinear_arith);
    assert(a != 0 ==> a * a > 0) by (nonlinear_arith);
}

/// A square grows with the magnitude of its root.
pub proof fn lemma_square_le(a: int, bound: int)
    requires
        -bound <= a <= bound,
    ensures
        0 <= a * a <= bound * bound,
{
    assert(0 <= a * a <= bound * bound) by (nonlinear_arith)
        requires
            -bound <= a <= bound,
    ;
}

/// The largest reach is a number from 0 to the bound.
pub proof fn lemma_largest_reach_bounds(bound: int, c: int, n2: int, length: int)
    requires
        0 <= bound,
    ensures
        0 <= largest_reach(bound, c, n2, length) <= bound,
    decreases bound,
{
    if bound > 0 {
        lemma_largest_reach_bounds(bound - 1, c, n2, length);
    }
}

/// The largest reach reaches.
proof fn lemma_largest_reach_reaches(bound: int, c: int, n2: int, length: int)
    requires
        0 <= bound,
    ensures
        reaches(largest_reach(bound, c, n2, length), c, n2, length),
    decreases bound,
{
    if bound > 0 {
        lemma_largest_reach_reaches(bound - 1, c, n2, length);
    } else {
        lemma_square_bounds(c);
        lemma_square_bounds(length);
        lemma_product_le(length * length, c * c, length * length, c * c);
        let r = largest_reach(bound, c, n2, length);
        assert(r * r * n2 == 0) by (nonlinear_arith)
            requires
                r == 0,
        ;
    }
}

/// A vector that is given a length is no longer than that length, and points
/// along every axis as before or not at all.
pub proof fn lemma_with_length(p: Point, length: int)
    requires
        0 <= length,
    ensures
        p.with_length(length).norm2() <= length * length,
        p.with_length(length).within(length),
        p.x >= 0 ==> p.with_length(length).x >= 0,
        p.x <= 0 ==> p.with_length(length).x <= 0,
        p.y >= 0 ==> p.with_length(length).y >= 0,
        p.y <= 0 ==> p.with_length(length).y <= 0,
        p.z >= 0 ==> p.with_length(length).z >= 0,
        p.z <= 0 ==> p.with_length(length).z <= 0,
        p == Point::origin() ==> p.with_length(length) == Point::origin(),
{
    let n2 = p.norm2();
    let w = p.with_length(length);
    lemma_largest_reach_bounds(length, p.x, n2, length);
    lemma_largest_reach_bounds(length, p.y, n2, length);
    lemma_largest_reach_bounds(length, p.z, n2, length);
    lemma_largest_reach_reaches(length, p.x, n2, length);
    lemma_largest_reach_reaches(length, p.y, n2, length);
    lemma_largest_reach_reaches(length, p.z, n2, length);
    lemma_square_bounds(p.x);
    lemma_square_bounds(p.y);
    lemma_square_bounds(p.z);
    lemma_square_bounds(length);
    let l2 = length * length;
    assert(w.x * w.x * n2 <= l2 * (p.x * p.x)) by {
        lemma_resized_reaches(p.x, n2, length);
    }
    assert(w.y * w.y * n2 <= l2 * (p.y * p.y)) by {
        lemma_resized_reaches(p.y, n2, length);
    }
    assert(w.z * w.z * n2 <= l2 * (p.z * p.z)) by {
        lemma_resized_reaches(p.z, n2, length);
    }
    if n2 > 0 {
        assert(w.norm2() <= l2) by (nonlinear_arith)
            requires
                n2 > 0,
                n2 == p.x * p.x + p.y * p.y + p.z * p.z,
                w.x * w.x * n2 <= l2 * (p.x * p.x),
                w.y * w.y * n2 <= l2 * (p.y * p.y),
                w.z * w.z * n2 <= l2 * (p.z * p.z),
                w.norm2() == w.x * w.x + w.y * w.y + w.z * w.z,
        ;
    } else {
        assert(w == Point::origin());
    }
}

/// A resized component reaches, whatever its sign.
proof fn lemma_resized_reaches(c: int, n2: int, length: int)
    requires
        0 <= length,
    ensures
        resized(c, n2, length) * resized(c, n2, length) * n2 <= length * length * (c * c),
{
    let r = largest_reach(length, c, n2, length);
    let w = resized(c, n2, length);
    lemma_largest_reach_reaches(length, c, n2, length);
    if c == 0 {
        assert(w * w * n2 == 0) by (nonlinear_arith)
            requires
                w == 0,
        ;
        assert(length * length * (c * c) == 0) by (nonlinear_arith)
            requires
                c == 0,
        ;
    } else if c < 0 {
        assert(w * w * n2 == r * r * n2) by (nonlinear_arith)
            requires
                w == -r,
        ;
    }
}

/// No number above the largest reach, up to the bound, reaches.
proof fn lemma_largest_reach_is_largest(bound: int, s: int, c: int, n2: int, length: int)
    requires
        largest_reach(bound, c, n2, length) < s <= bound,
    ensures
        !reaches(s, c, n2, length),
    decreases bound,
{
    if s < bound {
        lemma_largest_reach_is_largest(bound - 1, s, c, n2, length);
    }
}

/// The magnitude `r` of a resized component is the quotient
/// `length * |c| / sqrt(n2)` rounded down: `r / length <= |c| / sqrt(n2)`,
/// and `r + 1` is too large for that.
pub proof fn lemma_resized_is_rounded_quotient(c: int, n2: int, length: int)
    requires
        c != 0,
        c * c <= n2,
        0 <= length,
    ensures
        ({
            let r = largest_reach(length, c, n2, length);
            &&& 0 <= r <= length
            &&& resized(c, n2, length) == if c > 0 { r } else { -r }
            &&& r * r * n2 <= length * length * (c * c)
            &&& length * length * (c * c) < (r + 1) * (r + 1) * n2
        }),
{
    let r = largest_reach(length, c, n2, length);
    lemma_largest_reach_bounds(length, c, n2, length);
    lemma_largest_reach_reaches(length, c, n2, length);
    lemma_square_bounds(c);
    if r < length {
        lemma_largest_reach_is_largest(length, r + 1, c, n2, length);
    } else {
        assert(length * length * (c * c) < (length + 1) * (length + 1) * n2) by (nonlinear_arith)
            requires
                0 < c * c <= n2,
                0 <= length,
        ;
    }
}

/// A vector along an axis that is given a length has that length.
pub proof fn lemma_with_length_along_axis(c: int, length: int)
    requires
        c != 0,
        0 <= length,
    ensures
        resized(c, c * c, length) == if c > 0 {
            length
        } else {
            -length
        },
{
    if length > 0 {
        assert(reaches(length, c, c * c, length));
    }
}

/// An axis-aligned box, given by its two extreme corners.
pub struct Box3 {
    pub lower: Point,
    pub upper: Point,
}

impl Box3 {
    /// The corners are ordered and inside the supported coordinate range.
    pub open spec fn valid(self) -> bool {
        &&& self.lower.le(self.upper)
        &&& self.lower.within(COORD_LIMIT as int)
        &&& self.upper.within(COORD_LIMIT as int)
    }

    /// The midpoint of the two corners, rounded toward zero.
    pub open spec fn center(self) -> Point {
        Point {
            x: half_toward_zero(self.lower.x + self.upper.x),
            y: half_toward_zero(self.lower.y + self.upper.y),
            z: half_toward_zero(self.lower.z + self.upper.z),
        }
    }

    /// The extent along each axis.
    pub open spec fn dimensions(self) -> Point {
        self.upper.minus(self.lower)
    }

    /// The product of the three extents.
    pub open spec fn volume(self) -> int {
        self.dimensions().x * self.dimensions().y * self.dimensions().z
    }

    /// Some extent is zero.
    pub open spec fn degenerate(self) -> bool {
        ||| self.lower.x == self.upper.x
        ||| self.lower.y == self.upper.y
        ||| self.lower.z == self.upper.z
    }

    /// `p` lies inside the box, faces included.
    pub open spec fn contains(self, p: Point) -> bool {
        self.lower.le(p) && p.le(self.upper)
    }
}

/// The axis-aligned extent of an aggregate.
///
/// A value of this type always has ordered corners whose coordinates lie in
/// `[-COORD_LIMIT, COORD_LIMIT]`.
#[derive(Clone, Copy, Debug)]
pub struct BoundingBox {
    lower: Vec3,
    upper: Vec3,
}

impl View for BoundingBox {
    type V = Box3;

    closed spec fn view(&self) -> Box3 {
        Box3 { lower: self.lower@, upper: self.upper@ }
    }
}

/// `v` lies in `[-COORD_LIMIT, COORD_LIMIT]` on every axis.
fn in_coordinate_range(v: Vec3) -> (b: bool)
    ensures
        b == v@.within(COORD_LIMIT as int),
{
    -COORD_LIMIT <= v.x && v.x <= COORD_LIMIT && -COORD_LIMIT <= v.y && v.y <= COORD_LIMIT
        && -COORD_LIMIT <= v.z && v.z <= COORD_LIMIT
}

impl BoundingBox {
    /// What holds of every bounding box.
    #[verifier::type_invariant]
    pub open spec fn wf(self) -> bool {
        self@.valid()
    }

    /// The box with the given corners, or `None` when the corners are not
    /// ordered on every axis or leave the supported coordinate range.
    pub fn new(lower: Vec3, upper: Vec3) -> (r: Option<BoundingBox>)
        ensures
            r is Some <==> (Box3 { lower: lower@, upper: upper@ }).valid(),
            r matches Some(b) ==> b@ == (Box3 { lower: lower@, upper: upper@ }),
    {
        if lower.x <= upper.x && lower.y <= upper.y && lower.z <= upper.z && in_coordinate_range(
            lower,
        ) && in_coordinate_range(upper) {
            Some(BoundingBox { lower, upper })
        } else {
            None
        }
    }

    /// The corner with the smallest coordinates.
    pub fn lower(&self) -> (v: Vec3)
        ensures
            v@ == self@.lower,
    {
        self.lower
    }

    /// The corner with the largest coordinates.
    pub fn upper(&self) -> (v: Vec3)
        ensures
            v@ == self@.upper,
    {
        self.upper
    }

    /// The midpoint of the two corners, rounded toward zero.
    pub fn center(&self) -> (c: Vec3)
        ensures
            c@ == self@.center(),
    {
        proof {
            use_type_invariant(self);
        }
        Vec3 {
            x: (self.lower.x + self.upper.x) / 2,
            y: (self.lower.y + self.upper.y) / 2,
            z: (self.lower.z + self.upper.z) / 2,
        }
    }

    /// The extent along each axis.
    pub fn dimensions(&self) -> (d: Vec3)
        ensures
            d@ == self@.dimensions(),
    {
        proof {
            use_type_invariant(self);
        }
        self.upper.minus(self.lower)
    }

    /// The product of the three extents.
    pub fn volume(&self) -> (v: i128)
        ensures
            v == self@.volume(),
    {
        proof {
            use_type_invariant(self);
        }
        let d = self.dimensions();
        let dx: i128 = d.x as i128;
        let dy: i128 = d.y as i128;
        let dz: i128 = d.z as i128;
        proof {
            let m: int = 536_870_912;
            lemma_volume_bounds(dx as int, dy as int, dz as int, m);
            assert(m * m == 288_230_376_151_711_744) by (nonlinear_arith)
                requires
                    m == 536_870_912,
            ;
            assert(m * m * m == 154_742_504_910_672_534_362_390_528) by (nonlinear_arith)
                requires
                    m == 536_870_912,
            ;
        }
        dx * dy * dz
    }

    /// Whether some extent is zero.
    pub fn is_degenerate(&self) -> (b: bool)
        ensures
            b == self@.degenerate(),
    {
        self.lower.x == self.upper.x || self.lower.y == self.upper.y || self.lower.z
            == self.upper.z
    }

    /// Whether `p` lies inside the box, faces included.
    pub fn contains(&self, p: Vec3) -> (b: bool)
        ensures
            b == self@.contains(p@),
    {
        self.lower.x <= p.x && self.lower.y <= p.y && self.lower.z <= p.z && p.x <= self.upper.x
            && p.y <= self.upper.y && p.z <= self.upper.z
    }
}

/// Bounds on a product of three extents.
proof fn lemma_volume_bounds(a: int, b: int, c: int, m: int)
    requires
        0 <= a <= m,
        0 <= b <= m,
        0 <= c <= m,
    ensures
        0 <= a * b <= m * m,
        0 <= a * b * c <= m * m * m,
{
    assert(0 <= a * b <= m * m) by (nonlinear_arith)
        requires
            0 <= a <= m,
            0 <= b <= m,
    ;
    assert(0 <= (a * b) * c <= (m * m) * m) by (nonlinear_arith)
        requires
            0 <= a * b <= m * m,
            0 <= c <= m,
    ;
}

/// The center of a valid box lies inside it.
pub proof fn lemma_center_inside(b: Box3)
    requires
        b.valid(),
    ensures
        b.contains(b.center()),
{
}

/// Two points of one valid box are no farther apart than its longest
/// possible diagonal.
pub proof fn lemma_dist2_bound(b: Box3, p: Point, q: Point)
    requires
        b.valid(),
        b.contains(p),
        b.contains(q),
    ensures
        p.minus(q).fits(),
        0 <= p.dist2(q) <= DIST2_LIMIT,
{
    let m: int = 536_870_912;
    lemma_square_le(p.x - q.x, m);
    lemma_square_le(p.y - q.y, m);
    lemma_square_le(p.z - q.z, m);
    assert(m * m == 288_230_376_151_711_744) by (nonlinear_arith)
        requires
            m == 536_870_912,
    ;
}

} // verus!
