//! Geometry kernel: points, bounding boxes and drawable primitives.
//!
//! Layout coordinates are integers in database units. Translation uses
//! wrapping arithmetic, so every move has an exact inverse; derived
//! quantities (widths, areas, expanded bounding boxes) use saturating or
//! widened arithmetic as each contract states.

use vstd::prelude::*;

verus! {

use crate::LayerId;
use vstd::math::abs;

/// A 2D point in layout coordinates (database units).
#[derive(Debug, Clone, Copy, PartialEq, Eq, Structural)]
pub struct Point {
    pub x: i64,
    pub y: i64,
}

/// The squared Euclidean distance between two points, as an unbounded integer.
pub open spec fn dist_sq(a: Point, b: Point) -> int {
    (a.x - b.x) * (a.x - b.x) + (a.y - b.y) * (a.y - b.y)
}

/// Whether `r` is the floor of the square root of `n`.
pub open spec fn is_isqrt(n: int, r: int) -> bool {
    r >= 0 && r * r <= n < (r + 1) * (r + 1)
}

/// The floor of the square root of a nonnegative integer.
pub open spec fn isqrt_of(n: int) -> int {
    choose|r: int| is_isqrt(n, r)
}

/// The floor square root is the unique nonnegative root bound.
pub proof fn lemma_isqrt_unique(n: int, r: int)
    requires
        r >= 0,
        r * r <= n,
        n < (r + 1) * (r + 1),
    ensures
        isqrt_of(n) == r,
{
    assert(is_isqrt(n, r));
    let w = isqrt_of(n);
    assert(is_isqrt(n, w));
    assert(w == r) by (nonlinear_arith)
        requires
            r >= 0,
            w >= 0,
            r * r <= n,
            n < (r + 1) * (r + 1),
            w * w <= n,
            n < (w + 1) * (w + 1),
    ;
}

/// The length of a path's centerline: consecutive segment distances, each
/// rounded down to an integer, summed.
pub open spec fn path_len_of(points: Seq<Point>) -> int
    decreases points.len(),
{
    if points.len() <= 1 {
        0
    } else {
        path_len_of(points.drop_last()) + isqrt_of(
            dist_sq(points[points.len() - 2], points.last()),
        )
    }
}

/// Clip an unbounded integer into the `i64` range.
pub open spec fn sat_i64(v: int) -> int {
    if v > i64::MAX {
        i64::MAX as int
    } else if v < i64::MIN {
        i64::MIN as int
    } else {
        v
    }
}

/// Half of an integer, rounded toward zero.
pub open spec fn div2(w: int) -> int {
    if w >= 0 {
        w / 2
    } else {
        -((-w) / 2)
    }
}

/// Half of an `i64`, rounded toward zero.
pub fn half_of(w: i64) -> (r: i64)
    ensures
        r == div2(w as int),
{
    if w >= 0 {
        ((w as u64) / 2) as i64
    } else {
        let m: u64 = (-(w as i128)) as u64;
        -((m / 2) as i64)
    }
}

/// Saturating addition on `i64`.
pub fn sat_add(a: i64, b: i64) -> (r: i64)
    ensures
        r == sat_i64(a + b),
{
    match a.checked_add(b) {
        Some(v) => v,
        None => {
            if b >= 0 {
                i64::MAX
            } else {
                i64::MIN
            }
        },
    }
}

/// Floor of the square root of a 128-bit integer, by binary search.
pub fn isqrt128(n: u128) -> (r: u128)
    ensures
        r * r <= n,
        n < (r + 1) * (r + 1),
        r < 0x1_0000_0000_0000_0000,
{
    let mut lo: u128 = 0;
    let mut hi: u128 = 0xFFFF_FFFF_FFFF_FFFF;
    proof {
        assert(n < (hi + 1) * (hi + 1)) by (nonlinear_arith)
            requires
                n <= u128::MAX,
                hi == 0xFFFF_FFFF_FFFF_FFFFu128,
        ;
    }
    while lo < hi
        invariant
            lo <= hi <= 0xFFFF_FFFF_FFFF_FFFF,
            lo * lo <= n,
            n < (hi + 1) * (hi + 1),
        decreases hi - lo,
    {
        let mid: u128 = lo + (hi - lo + 1) / 2;
        proof {
            assert(mid * mid <= u128::MAX) by (nonlinear_arith)
                requires
                    mid <= 0xFFFF_FFFF_FFFF_FFFFu128,
            ;
        }
        if mid * mid <= n {
            lo = mid;
        } else {
            hi = mid - 1;
        }
    }
    lo
}

impl Point {
    pub fn new(x: i64, y: i64) -> (r: Self)
        ensures
            r.x == x,
            r.y == y,
    {
        Self { x, y }
    }

    /// Euclidean distance to another point, rounded down to an integer.
    pub fn distance_to(&self, other: &Point) -> (r: u64)
        requires
            dist_sq(*self, *other) <= u128::MAX,
        ensures
            r * r <= dist_sq(*self, *other) < (r + 1) * (r + 1),
            r == isqrt_of(dist_sq(*self, *other)),
    {
        let dx: i128 = self.x as i128 - other.x as i128;
        let dy: i128 = self.y as i128 - other.y as i128;
        let dx2: u128 = if dx >= 0 { dx as u128 } else { (-dx) as u128 };
        let dy2: u128 = if dy >= 0 { dy as u128 } else { (-dy) as u128 };
        assert(dx2 * dx2 + dy2 * dy2 == dist_sq(*self, *other)) by (nonlinear_arith)
            requires
                dx == self.x - other.x,
                dy == self.y - other.y,
                dx2 == abs(dx as int),
                dy2 == abs(dy as int),
        ;
        let s: u128 = dx2 * dx2 + dy2 * dy2;
        let r: u128 = isqrt128(s);
        proof {
            lemma_isqrt_unique(s as int, r as int);
        }
        r as u64
    }

    /// Translate by a delta, wrapping on overflow so that translating back
    /// by the negated delta always restores the point.
    pub fn translate(&self, dx: i64, dy: i64) -> (r: Self)
        ensures
            r.x == self.x.wrapping_add(dx),
            r.y == self.y.wrapping_add(dy),
    {
        Self { x: self.x.wrapping_add(dx), y: self.y.wrapping_add(dy) }
    }
}

/// An axis-aligned bounding box.
#[derive(Debug, Clone, Copy, PartialEq, Eq, Structural)]
pub struct BBox {
    pub min: Point,
    pub max: Point,
}

/// The least x coordinate of a nonempty point sequence.
pub open spec fn min_x_of(s: Seq<Point>) -> int
    decreases s.len(),
{
    if s.len() <= 1 {
        s[0].x as int
    } else {
        let m = min_x_of(s.drop_last());
        if s.last().x < m {
            s.last().x as int
        } else {
            m
        }
    }
}

/// The least y coordinate of a nonempty point sequence.
pub open spec fn min_y_of(s: Seq<Point>) -> int
    decreases s.len(),
{
    if s.len() <= 1 {
        s[0].y as int
    } else {
        let m = min_y_of(s.drop_last());
        if s.last().y < m {
            s.last().y as int
        } else {
            m
        }
    }
}

/// The greatest x coordinate of a nonempty point sequence.
pub open spec fn max_x_of(s: Seq<Point>) -> int
    decreases s.len(),
{
    if s.len() <= 1 {
        s[0].x as int
    } else {
        let m = max_x_of(s.drop_last());
        if s.last().x > m {
            s.last().x as int
        } else {
            m
        }
    }
}

/// The greatest y coordinate of a nonempty point sequence.
pub open spec fn max_y_of(s: Seq<Point>) -> int
    decreases s.len(),
{
    if s.len() <= 1 {
        s[0].y as int
    } else {
        let m = max_y_of(s.drop_last());
        if s.last().y > m {
            s.last().y as int
        } else {
            m
        }
    }
}

/// The bounding box of a nonempty point sequence.
pub open spec fn bbox_of_points(s: Seq<Point>) -> BBox {
    BBox {
        min: Point { x: min_x_of(s) as i64, y: min_y_of(s) as i64 },
        max: Point { x: max_x_of(s) as i64, y: max_y_of(s) as i64 },
    }
}

/// The componentwise union of two boxes.
pub open spec fn union_box(a: BBox, b: BBox) -> BBox {
    BBox {
        min: Point {
            x: if a.min.x <= b.min.x {
                a.min.x
            } else {
                b.min.x
            },
            y: if a.min.y <= b.min.y {
                a.min.y
            } else {
                b.min.y
            },
        },
        max: Point {
            x: if a.max.x >= b.max.x {
                a.max.x
            } else {
                b.max.x
            },
            y: if a.max.y >= b.max.y {
                a.max.y
            } else {
                b.max.y
            },
        },
    }
}

impl BBox {
    /// The documented invariant: `min` is componentwise at most `max`.
    pub open spec fn wf(self) -> bool {
        self.min.x <= self.max.x && self.min.y <= self.max.y
    }

    pub fn new(min: Point, max: Point) -> (r: Self)
        ensures
            r.min == min,
            r.max == max,
    {
        Self { min, max }
    }

    /// The smallest box containing every point of the slice; absent for an
    /// empty slice.
    pub fn from_points(points: &[Point]) -> (r: Option<Self>)
        ensures
            r is None <==> points@.len() == 0,
            r is Some ==> {
                let b = r->Some_0;
                &&& b.wf()
                &&& forall|i: int|
                    0 <= i < points@.len() ==> {
                        &&& b.min.x <= #[trigger] points@[i].x <= b.max.x
                        &&& b.min.y <= points@[i].y <= b.max.y
                    }
                &&& exists|i: int| 0 <= i < points@.len() && #[trigger] points@[i].x == b.min.x
                &&& exists|i: int| 0 <= i < points@.len() && #[trigger] points@[i].y == b.min.y
                &&& exists|i: int| 0 <= i < points@.len() && #[trigger] points@[i].x == b.max.x
                &&& exists|i: int| 0 <= i < points@.len() && #[trigger] points@[i].y == b.max.y
            },
            r is Some ==> r->Some_0 == bbox_of_points(points@),
    {
        if points.len() == 0 {
            return None;
        }
        let mut min_x: i64 = points[0].x;
        let mut min_y: i64 = points[0].y;
        let mut max_x: i64 = points[0].x;
        let mut max_y: i64 = points[0].y;
        let mut idx: usize = 1;
        while idx < points.len()
            invariant
                1 <= idx <= points@.len(),
                min_x <= max_x,
                min_y <= max_y,
                forall|i: int|
                    0 <= i < idx ==> {
                        &&& min_x <= #[trigger] points@[i].x <= max_x
                        &&& min_y <= points@[i].y <= max_y
                    },
                exists|i: int| 0 <= i < idx && #[trigger] points@[i].x == min_x,
                exists|i: int| 0 <= i < idx && #[trigger] points@[i].y == min_y,
                exists|i: int| 0 <= i < idx && #[trigger] points@[i].x == max_x,
                exists|i: int| 0 <= i < idx && #[trigger] points@[i].y == max_y,
                min_x == min_x_of(points@.subrange(0, idx as int)),
                min_y == min_y_of(points@.subrange(0, idx as int)),
                max_x == max_x_of(points@.subrange(0, idx as int)),
                max_y == max_y_of(points@.subrange(0, idx as int)),
            decreases points@.len() - idx,
        {
            proof {
                let pre = points@.subrange(0, idx as int);
                let post = points@.subrange(0, idx + 1);
                assert(post.drop_last() =~= pre);
                assert(post.last() == points@[idx as int]);
            }
            let p: Point = points[idx];
            if p.x < min_x {
                min_x = p.x;
            }
            if p.y < min_y {
                min_y = p.y;
            }
            if p.x > max_x {
                max_x = p.x;
            }
            if p.y > max_y {
                max_y = p.y;
            }
            idx = idx + 1;
        }
        proof {
            assert(points@.subrange(0, points@.len() as int) =~= points@);
        }
        Some(Self { min: Point { x: min_x, y: min_y }, max: Point { x: max_x, y: max_y } })
    }

    pub fn width(&self) -> (r: i128)
        ensures
            r == self.max.x - self.min.x,
    {
        self.max.x as i128 - self.min.x as i128
    }

    pub fn height(&self) -> (r: i128)
        ensures
            r == self.max.y - self.min.y,
    {
        self.max.y as i128 - self.min.y as i128
    }

    /// The midpoint, rounded down on each axis.
    pub fn center(&self) -> (r: Point)
        requires
            self.wf(),
        ensures
            r.x == self.min.x + (self.max.x - self.min.x) / 2,
            r.y == self.min.y + (self.max.y - self.min.y) / 2,
    {
        let wx: u128 = (self.max.x as i128 - self.min.x as i128) as u128;
        let wy: u128 = (self.max.y as i128 - self.min.y as i128) as u128;
        let cx: i64 = (self.min.x as i128 + (wx / 2) as i128) as i64;
        let cy: i64 = (self.min.y as i128 + (wy / 2) as i128) as i64;
        Point { x: cx, y: cy }
    }

    /// Whether the point lies inside the box, boundary included.
    pub fn contains_point(&self, p: &Point) -> (r: bool)
        ensures
            r <==> (self.min.x <= p.x <= self.max.x && self.min.y <= p.y <= self.max.y),
    {
        p.x >= self.min.x && p.x <= self.max.x && p.y >= self.min.y && p.y <= self.max.y
    }

    /// Whether the two boxes overlap, boundary coincidence included.
    pub fn intersects(&self, other: &BBox) -> (r: bool)
        ensures
            r <==> (self.min.x <= other.max.x && self.max.x >= other.min.x
                && self.min.y <= other.max.y && self.max.y >= other.min.y),
    {
        self.min.x <= other.max.x && self.max.x >= other.min.x && self.min.y <= other.max.y
            && self.max.y >= other.min.y
    }

    /// The componentwise union: smallest box containing both inputs.
    pub fn union(&self, other: &BBox) -> (r: Self)
        ensures
            r == union_box(*self, *other),
            r.min.x == if self.min.x <= other.min.x { self.min.x } else { other.min.x },
            r.min.y == if self.min.y <= other.min.y { self.min.y } else { other.min.y },
            r.max.x == if self.max.x >= other.max.x { self.max.x } else { other.max.x },
            r.max.y == if self.max.y >= other.max.y { self.max.y } else { other.max.y },
            self.wf() && other.wf() ==> r.wf(),
    {
        Self {
            min: Point {
                x: if self.min.x <= other.min.x { self.min.x } else { other.min.x },
                y: if self.min.y <= other.min.y { self.min.y } else { other.min.y },
            },
            max: Point {
                x: if self.max.x >= other.max.x { self.max.x } else { other.max.x },
                y: if self.max.y >= other.max.y { self.max.y } else { other.max.y },
            },
        }
    }
}

/// The box union is the least upper bound: it contains both inputs, and
/// any box containing both inputs contains the union.
pub proof fn lemma_union_least_upper_bound(a: BBox, b: BBox, c: BBox)
    ensures
        union_box(a, b).min.x <= a.min.x && union_box(a, b).min.x <= b.min.x,
        union_box(a, b).min.y <= a.min.y && union_box(a, b).min.y <= b.min.y,
        union_box(a, b).max.x >= a.max.x && union_box(a, b).max.x >= b.max.x,
        union_box(a, b).max.y >= a.max.y && union_box(a, b).max.y >= b.max.y,
        (c.min.x <= a.min.x && c.min.x <= b.min.x && c.min.y <= a.min.y && c.min.y <= b.min.y
            && c.max.x >= a.max.x && c.max.x >= b.max.x && c.max.y >= a.max.y && c.max.y
            >= b.max.y) ==> (c.min.x <= union_box(a, b).min.x && c.min.y <= union_box(
            a,
            b,
        ).min.y && c.max.x >= union_box(a, b).max.x && c.max.y >= union_box(a, b).max.y),
        union_box(a, b) == union_box(b, a),
{
}

/// A rectangle defined by lower-left and upper-right corners.
#[derive(Debug, Clone, PartialEq, Eq, Structural)]
pub struct Rect {
    pub layer_id: LayerId,
    pub lower_left: Point,
    pub upper_right: Point,
}

impl Rect {
    /// Builds a rectangle from two arbitrary corners, normalising them so
    /// that `lower_left` is componentwise at most `upper_right`.
    pub fn new(layer_id: LayerId, x1: i64, y1: i64, x2: i64, y2: i64) -> (r: Self)
        ensures
            r.layer_id == layer_id,
            r.lower_left.x == if x1 <= x2 { x1 } else { x2 },
            r.lower_left.y == if y1 <= y2 { y1 } else { y2 },
            r.upper_right.x == if x1 >= x2 { x1 } else { x2 },
            r.upper_right.y == if y1 >= y2 { y1 } else { y2 },
            r.lower_left.x <= r.upper_right.x && r.lower_left.y <= r.upper_right.y,
    {
        Self {
            layer_id,
            lower_left: Point {
                x: if x1 <= x2 { x1 } else { x2 },
                y: if y1 <= y2 { y1 } else { y2 },
            },
            upper_right: Point {
                x: if x1 >= x2 { x1 } else { x2 },
                y: if y1 >= y2 { y1 } else { y2 },
            },
        }
    }

    pub fn bbox(&self) -> (r: BBox)
        ensures
            r.min == self.lower_left,
            r.max == self.upper_right,
    {
        BBox { min: self.lower_left, max: self.upper_right }
    }

    pub fn width(&self) -> (r: i128)
        ensures
            r == self.upper_right.x - self.lower_left.x,
    {
        self.upper_right.x as i128 - self.lower_left.x as i128
    }

    pub fn height(&self) -> (r: i128)
        ensures
            r == self.upper_right.y - self.lower_left.y,
    {
        self.upper_right.y as i128 - self.lower_left.y as i128
    }

    pub fn area(&self) -> (r: i128)
        requires
            (self.upper_right.x - self.lower_left.x) * (self.upper_right.y - self.lower_left.y)
                <= i128::MAX,
            i128::MIN <= (self.upper_right.x - self.lower_left.x) * (self.upper_right.y
                - self.lower_left.y),
        ensures
            r == (self.upper_right.x - self.lower_left.x) * (self.upper_right.y
                - self.lower_left.y),
    {
        let w: i128 = self.upper_right.x as i128 - self.lower_left.x as i128;
        let h: i128 = self.upper_right.y as i128 - self.lower_left.y as i128;
        w * h
    }

    pub fn contains_point(&self, p: &Point) -> (r: bool)
        ensures
            r <==> (self.lower_left.x <= p.x <= self.upper_right.x && self.lower_left.y <= p.y
                <= self.upper_right.y),
    {
        self.bbox().contains_point(p)
    }
}

/// A polygon defined by a list of vertices.
#[derive(Debug, Clone, PartialEq)]
pub struct Polygon {
    pub layer_id: LayerId,
    pub vertices: Vec<Point>,
}

impl Polygon {
    pub fn new(layer_id: LayerId, vertices: Vec<Point>) -> (r: Self)
        ensures
            r.layer_id == layer_id,
            r.vertices@ == vertices@,
    {
        Self { layer_id, vertices }
    }

    /// The bounding box of the vertex set; absent for an empty polygon.
    pub fn bbox(&self) -> (r: Option<BBox>)
        ensures
            r is None <==> self.vertices@.len() == 0,
            r is Some ==> {
                let b = r->Some_0;
                &&& b == bbox_of_points(self.vertices@)
                &&& b.wf()
                &&& forall|i: int|
                    0 <= i < self.vertices@.len() ==> {
                        &&& b.min.x <= #[trigger] self.vertices@[i].x <= b.max.x
                        &&& b.min.y <= self.vertices@[i].y <= b.max.y
                    }
            },
    {
        BBox::from_points(self.vertices.as_slice())
    }

    pub fn vertex_count(&self) -> (r: usize)
        ensures
            r == self.vertices@.len(),
    {
        self.vertices.len()
    }
}

/// A path (wire) defined by a centerline and a width.
#[derive(Debug, Clone, PartialEq)]
pub struct Path {
    pub layer_id: LayerId,
    pub points: Vec<Point>,
    pub width: i64,
}

impl Path {
    pub fn new(layer_id: LayerId, points: Vec<Point>, width: i64) -> (r: Self)
        ensures
            r.layer_id == layer_id,
            r.points@ == points@,
            r.width == width,
    {
        Self { layer_id, points, width }
    }

    /// The centerline bounding box expanded by half the width on every side,
    /// saturating at the coordinate range; absent for an empty centerline.
    pub fn bbox(&self) -> (r: Option<BBox>)
        ensures
            r is None <==> self.points@.len() == 0,
            r is Some ==> {
                let b = r->Some_0;
                let h = div2(self.width as int);
                &&& b == bbox_of_points(path_expanded(self.points@, h))
                &&& forall|i: int|
                    0 <= i < self.points@.len() ==> {
                        &&& b.min.x <= sat_i64(#[trigger] self.points@[i].x - h)
                        &&& b.min.y <= sat_i64(self.points@[i].y - h)
                        &&& sat_i64(self.points@[i].x + h) <= b.max.x
                        &&& sat_i64(self.points@[i].y + h) <= b.max.y
                    }
            },
    {
        let half_w: i64 = half_of(self.width);
        let mut expanded: Vec<Point> = Vec::new();
        let mut idx: usize = 0;
        while idx < self.points.len()
            invariant
                0 <= idx <= self.points@.len(),
                expanded@.len() == 2 * idx,
                half_w == div2(self.width as int),
                forall|i: int|
                    0 <= i < idx ==> {
                        &&& (#[trigger] expanded@[2 * i]).x == sat_i64(self.points@[i].x - half_w)
                        &&& expanded@[2 * i].y == sat_i64(self.points@[i].y - half_w)
                        &&& expanded@[2 * i + 1].x == sat_i64(self.points@[i].x + half_w)
                        &&& expanded@[2 * i + 1].y == sat_i64(self.points@[i].y + half_w)
                    },
            decreases self.points@.len() - idx,
        {
            let p: Point = self.points[idx];
            expanded.push(Point { x: sat_add(p.x, -half_w), y: sat_add(p.y, -half_w) });
            expanded.push(Point { x: sat_add(p.x, half_w), y: sat_add(p.y, half_w) });
            idx = idx + 1;
        }
        let r = BBox::from_points(expanded.as_slice());
        proof {
            assert forall|j: int| 0 <= j < expanded@.len() implies expanded@[j] == path_expanded(
                self.points@,
                half_w as int,
            )[j] by {
                let i: int = j / 2;
                assert(0 <= i < self.points@.len());
                if j % 2 == 0 {
                    assert(j == 2 * i);
                    assert((expanded@[2 * i]).x == sat_i64(self.points@[i].x - half_w));
                    assert(expanded@[2 * i].y == sat_i64(self.points@[i].y - half_w));
                } else {
                    assert(j == 2 * i + 1);
                    assert((expanded@[2 * i]).x == sat_i64(self.points@[i].x - half_w));
                    assert(expanded@[2 * i + 1].x == sat_i64(self.points@[i].x + half_w));
                    assert(expanded@[2 * i + 1].y == sat_i64(self.points@[i].y + half_w));
                }
            }
            assert(expanded@ =~= path_expanded(self.points@, half_w as int));
            if self.points@.len() > 0 {
                assert(expanded@.len() > 0);
                assert forall|i: int| 0 <= i < self.points@.len() implies {
                    &&& r->Some_0.min.x <= sat_i64(#[trigger] self.points@[i].x - half_w)
                    &&& r->Some_0.min.y <= sat_i64(self.points@[i].y - half_w)
                    &&& sat_i64(self.points@[i].x + half_w) <= r->Some_0.max.x
                    &&& sat_i64(self.points@[i].y + half_w) <= r->Some_0.max.y
                } by {
                    assert(expanded@[2 * i].x == sat_i64(self.points@[i].x - half_w));
                    assert(expanded@[2 * i + 1].x == sat_i64(self.points@[i].x + half_w));
                }
            }
        }
        r
    }

    /// The sum of the integer distances between consecutive centerline
    /// points. Each segment contributes its Euclidean length rounded down.
    pub fn length(&self) -> (r: u128)
        requires
            forall|i: int|
                0 <= i < self.points@.len() - 1 ==> dist_sq(
                    #[trigger] self.points@[i],
                    self.points@[i + 1],
                ) <= u128::MAX,
        ensures
            r == path_len_of(self.points@),
    {
        if self.points.len() < 2 {
            return 0;
        }
        let mut total: u128 = 0;
        let mut idx: usize = 0;
        while idx < self.points.len() - 1
            invariant
                self.points@.len() >= 2,
                0 <= idx <= self.points@.len() - 1,
                total <= idx * 0xFFFF_FFFF_FFFF_FFFFu128,
                total == path_len_of(self.points@.subrange(0, idx + 1)),
                forall|i: int|
                    0 <= i < self.points@.len() - 1 ==> dist_sq(
                        #[trigger] self.points@[i],
                        self.points@[i + 1],
                    ) <= u128::MAX,
            decreases self.points@.len() - idx,
        {
            proof {
                let pre = self.points@.subrange(0, idx + 1);
                let post = self.points@.subrange(0, idx + 2);
                assert(post.drop_last() =~= pre);
                assert(post.last() == self.points@[idx + 1]);
                assert(post[post.len() - 2] == self.points@[idx as int]);
            }
            let d: u64 = self.points[idx].distance_to(&self.points[idx + 1]);
            proof {
                assert(total + d <= (idx + 1) * 0xFFFF_FFFF_FFFF_FFFFu128) by (nonlinear_arith)
                    requires
                        total <= idx * 0xFFFF_FFFF_FFFF_FFFFu128,
                        d <= 0xFFFF_FFFF_FFFF_FFFFu128,
                ;
                assert((idx + 1) * 0xFFFF_FFFF_FFFF_FFFFu128 <= u128::MAX) by (nonlinear_arith)
                    requires
                        idx + 1 <= 0x1_0000_0000_0000_0000u128,
                ;
            }
            total = total + d as u128;
            idx = idx + 1;
        }
        proof {
            assert(self.points@.subrange(0, self.points@.len() as int) =~= self.points@);
        }
        total
    }
}

/// A via connecting two layers through a cut.
#[derive(Debug, Clone, PartialEq, Eq, Structural)]
pub struct Via {
    pub bottom_layer: LayerId,
    pub top_layer: LayerId,
    pub cut_layer: LayerId,
    pub position: Point,
    pub width: i64,
    pub height: i64,
}

impl Via {
    pub fn new(
        bottom_layer: LayerId,
        top_layer: LayerId,
        cut_layer: LayerId,
        position: Point,
        width: i64,
        height: i64,
    ) -> (r: Self)
        ensures
            r == (Via { bottom_layer, top_layer, cut_layer, position, width, height }),
    {
        Self { bottom_layer, top_layer, cut_layer, position, width, height }
    }

    /// A box centred on the via position, half the width and height on each
    /// side, saturating at the coordinate range.
    pub fn bbox(&self) -> (r: BBox)
        ensures
            r.min.x == sat_i64(self.position.x - div2(self.width as int)),
            r.min.y == sat_i64(self.position.y - div2(self.height as int)),
            r.max.x == sat_i64(self.position.x + div2(self.width as int)),
            r.max.y == sat_i64(self.position.y + div2(self.height as int)),
    {
        let half_w: i64 = half_of(self.width);
        let half_h: i64 = half_of(self.height);
        BBox {
            min: Point { x: sat_add(self.position.x, -half_w), y: sat_add(self.position.y, -half_h) },
            max: Point { x: sat_add(self.position.x, half_w), y: sat_add(self.position.y, half_h) },
        }
    }
}

/// A geometric primitive in the layout.
#[derive(Debug, Clone, PartialEq)]
pub enum GeomPrimitive {
    Rect(Rect),
    Polygon(Polygon),
    Path(Path),
    Via(Via),
}

/// The mathematical value of a [`GeomPrimitive`]: the same shape data with
/// vertex lists abstracted to sequences.
pub ghost enum GeomView {
    Rect { layer_id: LayerId, lower_left: Point, upper_right: Point },
    Polygon { layer_id: LayerId, vertices: Seq<Point> },
    Path { layer_id: LayerId, points: Seq<Point>, width: i64 },
    Via {
        bottom_layer: LayerId,
        top_layer: LayerId,
        cut_layer: LayerId,
        position: Point,
        width: i64,
        height: i64,
    },
}

impl View for GeomPrimitive {
    type V = GeomView;

    open spec fn view(&self) -> GeomView {
        match self {
            GeomPrimitive::Rect(r) => GeomView::Rect {
                layer_id: r.layer_id,
                lower_left: r.lower_left,
                upper_right: r.upper_right,
            },
            GeomPrimitive::Polygon(p) => GeomView::Polygon {
                layer_id: p.layer_id,
                vertices: p.vertices@,
            },
            GeomPrimitive::Path(p) => GeomView::Path {
                layer_id: p.layer_id,
                points: p.points@,
                width: p.width,
            },
            GeomPrimitive::Via(v) => GeomView::Via {
                bottom_layer: v.bottom_layer,
                top_layer: v.top_layer,
                cut_layer: v.cut_layer,
                position: v.position,
                width: v.width,
                height: v.height,
            },
        }
    }
}

/// The expanded point set whose bounds give a path's bounding box: each
/// centerline point pushed out by half the width toward both corners.
pub open spec fn path_expanded(points: Seq<Point>, h: int) -> Seq<Point> {
    Seq::new(
        2 * points.len(),
        |i: int|
            if i % 2 == 0 {
                Point {
                    x: sat_i64(points[i / 2].x - h) as i64,
                    y: sat_i64(points[i / 2].y - h) as i64,
                }
            } else {
                Point {
                    x: sat_i64(points[i / 2].x + h) as i64,
                    y: sat_i64(points[i / 2].y + h) as i64,
                }
            },
    )
}

/// The bounding box of a primitive view; absent exactly for a polygon or
/// path without points.
pub open spec fn spec_geom_bbox(g: GeomView) -> Option<BBox> {
    match g {
        GeomView::Rect { lower_left, upper_right, .. } => Some(
            BBox { min: lower_left, max: upper_right },
        ),
        GeomView::Polygon { vertices, .. } => if vertices.len() == 0 {
            None
        } else {
            Some(bbox_of_points(vertices))
        },
        GeomView::Path { points, width, .. } => if points.len() == 0 {
            None
        } else {
            Some(bbox_of_points(path_expanded(points, div2(width as int))))
        },
        GeomView::Via { position, width, height, .. } => Some(
            BBox {
                min: Point {
                    x: sat_i64(position.x - div2(width as int)) as i64,
                    y: sat_i64(position.y - div2(height as int)) as i64,
                },
                max: Point {
                    x: sat_i64(position.x + div2(width as int)) as i64,
                    y: sat_i64(position.y + div2(height as int)) as i64,
                },
            },
        ),
    }
}

/// The layer a primitive view draws on (the cut layer for a via).
pub open spec fn view_layer_id(g: GeomView) -> LayerId {
    match g {
        GeomView::Rect { layer_id, .. } => layer_id,
        GeomView::Polygon { layer_id, .. } => layer_id,
        GeomView::Path { layer_id, .. } => layer_id,
        GeomView::Via { cut_layer, .. } => cut_layer,
    }
}

impl GeomPrimitive {
    /// An exact structural copy; written out so that the copy is provably
    /// equal to the original in contracts.
    pub fn duplicate(&self) -> (r: Self)
        ensures
            r@ == self@,
    {
        match self {
            GeomPrimitive::Rect(r) => GeomPrimitive::Rect(Rect {
                layer_id: r.layer_id,
                lower_left: r.lower_left,
                upper_right: r.upper_right,
            }),
            GeomPrimitive::Polygon(p) => GeomPrimitive::Polygon(Polygon {
                layer_id: p.layer_id,
                vertices: copy_points(&p.vertices),
            }),
            GeomPrimitive::Path(p) => GeomPrimitive::Path(Path {
                layer_id: p.layer_id,
                points: copy_points(&p.points),
                width: p.width,
            }),
            GeomPrimitive::Via(v) => GeomPrimitive::Via(Via {
                bottom_layer: v.bottom_layer,
                top_layer: v.top_layer,
                cut_layer: v.cut_layer,
                position: v.position,
                width: v.width,
                height: v.height,
            }),
        }
    }

    /// The bounding box of the primitive; absent exactly for a polygon or
    /// path without points.
    pub fn bbox(&self) -> (r: Option<BBox>)
        ensures
            r == spec_geom_bbox(self@),
    {
        match self {
            GeomPrimitive::Rect(r) => Some(r.bbox()),
            GeomPrimitive::Polygon(p) => p.bbox(),
            GeomPrimitive::Path(p) => p.bbox(),
            GeomPrimitive::Via(v) => Some(v.bbox()),
        }
    }

    /// The layer the primitive draws on (the cut layer for a via).
    pub fn layer_id(&self) -> (r: LayerId)
        ensures
            r == view_layer_id(self@),
    {
        match self {
            GeomPrimitive::Rect(r) => r.layer_id,
            GeomPrimitive::Polygon(p) => p.layer_id,
            GeomPrimitive::Path(p) => p.layer_id,
            GeomPrimitive::Via(v) => v.cut_layer,
        }
    }
}

/// An elementwise copy of a point vector, provably equal to its input.
pub fn copy_points(points: &Vec<Point>) -> (r: Vec<Point>)
    ensures
        r@ == points@,
{
    let mut out: Vec<Point> = Vec::new();
    let mut idx: usize = 0;
    while idx < points.len()
        invariant
            0 <= idx <= points@.len(),
            out@ == points@.subrange(0, idx as int),
        decreases points@.len() - idx,
    {
        out.push(points[idx]);
        proof {
            assert(out@ =~= points@.subrange(0, idx + 1));
        }
        idx = idx + 1;
    }
    proof {
        assert(out@ =~= points@);
    }
    out
}

} // verus!
