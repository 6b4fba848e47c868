//! Points, axis-aligned bounding rectangles and the shape rules built on them.

use vstd::prelude::*;
use vstd::relations::{sorted_by, total_ordering};
use vstd::seq_lib::{group_to_multiset_ensures, lemma_sorted_unique};

verus! {

/// A pixel position in image space.
#[derive(Clone, Copy, Debug, PartialEq, Eq, Structural)]
pub struct Point {
    pub x: u32,
    pub y: u32,
}

/// An axis-aligned rectangle given by its extreme coordinates.
#[derive(Clone, Copy, Debug, PartialEq, Eq, Structural)]
pub struct BoundingRect {
    pub left: u32,
    pub top: u32,
    pub right: u32,
    pub bottom: u32,
}

/// The smaller of two values.
pub open spec fn min_u32(a: u32, b: u32) -> u32 {
    if a <= b { a } else { b }
}

/// The larger of two values.
pub open spec fn max_u32(a: u32, b: u32) -> u32 {
    if a >= b { a } else { b }
}

/// The bounding rectangle of a point sequence: the least and greatest
/// coordinates over all of its points, folded from the first point on.
pub open spec fn bounds_of(ps: Seq<Point>) -> BoundingRect
    decreases ps.len(),
{
    if ps.len() == 0 {
        BoundingRect { left: u32::MAX, top: u32::MAX, right: 0, bottom: 0 }
    } else {
        let r = bounds_of(ps.drop_last());
        let p = ps.last();
        BoundingRect {
            left: min_u32(r.left, p.x),
            top: min_u32(r.top, p.y),
            right: max_u32(r.right, p.x),
            bottom: max_u32(r.bottom, p.y),
        }
    }
}

impl BoundingRect {
    /// The corners are in order: left of right, top above bottom.
    pub open spec fn wf(self) -> bool {
        self.left <= self.right && self.top <= self.bottom
    }

    pub open spec fn width_spec(self) -> int {
        self.right - self.left
    }

    pub open spec fn height_spec(self) -> int {
        self.bottom - self.top
    }

    pub open spec fn area_spec(self) -> int {
        self.width_spec() * self.height_spec()
    }

    /// Whether the point lies on or inside the rectangle's border.
    pub open spec fn encloses(self, p: Point) -> bool {
        self.left <= p.x <= self.right && self.top <= p.y <= self.bottom
    }

    /// Width and height differ by less than a tenth of the width.
    pub open spec fn square_like_spec(self) -> bool {
        SQUARE_TOLERANCE_INVERSE * abs_diff(self.width_spec(), self.height_spec()) < self.width_spec()
    }

    /// Gets the width of this bounding rectangle.
    pub fn width(&self) -> (r: u32)
        requires
            self.wf(),
        ensures
            r == self.width_spec(),
    {
        self.right - self.left
    }

    /// Gets the height of this bounding rectangle.
    pub fn height(&self) -> (r: u32)
        requires
            self.wf(),
        ensures
            r == self.height_spec(),
    {
        self.bottom - self.top
    }

    /// Width times height, in a type wide enough for any rectangle.
    pub fn area(&self) -> (r: u64)
        requires
            self.wf(),
        ensures
            r == self.area_spec(),
    {
        let w = self.width() as u64;
        let h = self.height() as u64;
        assert(w * h <= u32::MAX as u64 * u32::MAX as u64) by (nonlinear_arith)
            requires
                w <= u32::MAX,
                h <= u32::MAX,
        ;
        w * h
    }

    /// Determines if this bounding rectangle has a square-like shape: the
    /// difference between height and width is under 10% of the width. A
    /// rectangle of zero width is never square-like.
    pub fn is_square_like(&self) -> (r: bool)
        requires
            self.wf(),
        ensures
            r == self.square_like_spec(),
    {
        let w = self.width() as u64;
        let h = self.height() as u64;
        let diff: u64 = if w >= h { w - h } else { h - w };
        diff * SQUARE_TOLERANCE_INVERSE < w
    }

    /// Determines the bounding rectangle from a set of points, ignoring
    /// object rotation.
    pub fn from_points(points: &[Point]) -> (r: BoundingRect)
        requires
            points@.len() > 0,
        ensures
            r == bounds_of(points@),
            r.wf(),
            forall|i: int| 0 <= i < points@.len() ==> r.encloses(#[trigger] points@[i]),
            exists|i: int| 0 <= i < points@.len() && #[trigger] points@[i].x == r.left,
            exists|i: int| 0 <= i < points@.len() && #[trigger] points@[i].y == r.top,
            exists|i: int| 0 <= i < points@.len() && #[trigger] points@[i].x == r.right,
            exists|i: int| 0 <= i < points@.len() && #[trigger] points@[i].y == r.bottom,
    {
        let mut r = BoundingRect { left: u32::MAX, top: u32::MAX, right: 0, bottom: 0 };
        let mut i: usize = 0;
        while i < points.len()
            invariant
                i <= points@.len(),
                r == bounds_of(points@.take(i as int)),
            decreases points@.len() - i,
        {
            let p = points[i];
            assert(points@.take(i + 1).drop_last() =~= points@.take(i as int));
            r = BoundingRect {
                left: if p.x < r.left { p.x } else { r.left },
                top: if p.y < r.top { p.y } else { r.top },
                right: if p.x > r.right { p.x } else { r.right },
                bottom: if p.y > r.bottom { p.y } else { r.bottom },
            };
            i = i + 1;
        }
        assert(points@.take(i as int) =~= points@);
        proof {
            lemma_bounds_of_encloses(points@);
        }
        r
    }
}

/// One tenth, as its inverse: the square-likeness tolerance.
pub const SQUARE_TOLERANCE_INVERSE: u64 = 10;

pub open spec fn abs_diff(a: int, b: int) -> int {
    if a >= b { a - b } else { b - a }
}

/// For any non-empty point set the bounding rectangle is well formed, every
/// point lies within it, and each of its four sides is attained by a point.
pub proof fn lemma_bounds_of_encloses(ps: Seq<Point>)
    requires
        ps.len() > 0,
    ensures
        bounds_of(ps).wf(),
        forall|i: int| 0 <= i < ps.len() ==> bounds_of(ps).encloses(#[trigger] ps[i]),
        exists|i: int| 0 <= i < ps.len() && #[trigger] ps[i].x == bounds_of(ps).left,
        exists|i: int| 0 <= i < ps.len() && #[trigger] ps[i].y == bounds_of(ps).top,
        exists|i: int| 0 <= i < ps.len() && #[trigger] ps[i].x == bounds_of(ps).right,
        exists|i: int| 0 <= i < ps.len() && #[trigger] ps[i].y == bounds_of(ps).bottom,
    decreases ps.len(),
{
    let n = ps.len() - 1;
    let last = ps[n];
    if ps.len() == 1 {
        assert(ps.drop_last().len() == 0);
        assert(bounds_of(ps.drop_last()).left == u32::MAX);
        assert(bounds_of(ps.drop_last()).top == u32::MAX);
        assert(ps[0].x == bounds_of(ps).left);
        assert(ps[0].y == bounds_of(ps).top);
        assert(ps[0].x == bounds_of(ps).right);
        assert(ps[0].y == bounds_of(ps).bottom);
    } else {
        let prev = ps.drop_last();
        lemma_bounds_of_encloses(prev);
        let r = bounds_of(ps);
        assert forall|i: int| 0 <= i < ps.len() implies r.encloses(#[trigger] ps[i]) by {
            if i < n {
                assert(bounds_of(prev).encloses(prev[i]));
            }
        }
        if last.x <= bounds_of(prev).left {
            assert(ps[n].x == r.left);
        } else {
            let i = choose|i: int| 0 <= i < prev.len() && #[trigger] prev[i].x == bounds_of(prev).left;
            assert(ps[i].x == r.left);
        }
        if last.y <= bounds_of(prev).top {
            assert(ps[n].y == r.top);
        } else {
            let i = choose|i: int| 0 <= i < prev.len() && #[trigger] prev[i].y == bounds_of(prev).top;
            assert(ps[i].y == r.top);
        }
        if last.x >= bounds_of(prev).right {
            assert(ps[n].x == r.right);
        } else {
            let i = choose|i: int| 0 <= i < prev.len() && #[trigger] prev[i].x == bounds_of(prev).right;
            assert(ps[i].x == r.right);
        }
        if last.y >= bounds_of(prev).bottom {
            assert(ps[n].y == r.bottom);
        } else {
            let i = choose|i: int| 0 <= i < prev.len() && #[trigger] prev[i].y == bounds_of(prev).bottom;
            assert(ps[i].y == r.bottom);
        }
    }
}

/// The order in which values are sorted: ascending.
pub open spec fn ascending() -> spec_fn(u32, u32) -> bool {
    |a: u32, b: u32| a <= b
}

/// The values in ascending order.
pub open spec fn sorted_values(s: Seq<u32>) -> Seq<u32> {
    s.sort_by(ascending())
}

/// Twice the median of a non-empty sequence: the sum of its two central
/// values once sorted, which are one and the same value when the length is
/// odd.
pub open spec fn doubled_median(s: Seq<u32>) -> int {
    sorted_values(s)[(s.len() - 1) / 2] + sorted_values(s)[(s.len() / 2) as int]
}

proof fn lemma_ascending_total()
    ensures
        total_ordering(ascending()),
{
}

/// A sorted sequence with the same elements as `s` is `s` sorted.
proof fn lemma_sorted_values_unique(s: Seq<u32>, t: Seq<u32>)
    requires
        sorted_by(t, ascending()),
        t.to_multiset() == s.to_multiset(),
    ensures
        t == sorted_values(s),
{
    lemma_ascending_total();
    s.lemma_sort_by_ensures(ascending());
    lemma_sorted_unique(t, sorted_values(s), ascending());
}

/// Sorts a copy of the values in ascending order, by insertion.
fn sorted_copy(nums: &[u32]) -> (r: Vec<u32>)
    ensures
        r@ == sorted_values(nums@),
{
    let mut out: Vec<u32> = Vec::new();
    let mut i: usize = 0;
    assert(out@ =~= nums@.take(0));
    while i < nums.len()
        invariant
            i <= nums@.len(),
            sorted_by(out@, ascending()),
            out@.to_multiset() == nums@.take(i as int).to_multiset(),
        decreases nums@.len() - i,
    {
        let x = nums[i];
        let mut j: usize = 0;
        while j < out.len() && out[j] <= x
            invariant
                j <= out@.len(),
                forall|k: int| 0 <= k < j ==> out@[k] <= x,
            decreases out@.len() - j,
        {
            j = j + 1;
        }
        let ghost before = out@;
        out.insert(j, x);
        proof {
            broadcast use group_to_multiset_ensures;

            assert(nums@.take(i + 1) =~= nums@.take(i as int).push(x));
            assert forall|a: int, b: int| 0 <= a < b < out@.len() implies #[trigger] (ascending())(
                out@[a],
                out@[b],
            ) by {
                assert(sorted_by(before, ascending()));
                if b < j {
                    assert((ascending())(before[a], before[b]));
                } else if a < j && b == j {
                } else if a < j {
                    assert((ascending())(before[a], before[b - 1]));
                } else if a == j {
                    assert(before[j as int] > x);
                    assert((ascending())(before[j as int], before[b - 1]));
                } else {
                    assert((ascending())(before[a - 1], before[b - 1]));
                }
            }
        }
        i = i + 1;
    }
    proof {
        assert(nums@.take(i as int) =~= nums@);
        lemma_sorted_values_unique(nums@, out@);
    }
    out
}

/// Twice the median of the given numbers. The median of an even count is the
/// mean of the two central values; doubling it keeps the result an integer.
pub fn median(nums: &[u32]) -> (r: u64)
    requires
        nums@.len() > 0,
    ensures
        r == doubled_median(nums@),
{
    let sorted = sorted_copy(nums);
    proof {
        broadcast use group_to_multiset_ensures;

        nums@.lemma_sort_by_ensures(ascending());
        assert(sorted@.to_multiset().len() == nums@.to_multiset().len());
    }
    let n = sorted.len();
    sorted[(n - 1) / 2] as u64 + sorted[n / 2] as u64
}

} // verus!
