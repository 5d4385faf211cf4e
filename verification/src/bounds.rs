//! The bounds of points.

use vstd::prelude::*;
#[allow(unused_imports)]
use vstd::string::*;
use crate::binary64::Real;
use crate::point::Point;

verus! {

/// The bits of the largest number.
pub const LARGEST: u64 = 0x7fef_ffff_ffff_ffff;

/// The bits of the smallest number.
pub const SMALLEST: u64 = 0xffef_ffff_ffff_ffff;

/// The least and the greatest coordinate along each axis.
#[derive(Debug, Clone, Copy)]
pub struct Bounds {
    pub min: [Real; 3],
    pub max: [Real; 3],
}

/// The coordinates of a point.
pub open spec fn place(point: Point) -> Seq<Real> {
    seq![point.x, point.y, point.z]
}

/// The least coordinate of some points along an axis.
pub open spec fn least(points: Seq<Point>, axis: int) -> Real
    decreases points.len(),
{
    if points.len() == 0 {
        Real { bits: LARGEST }
    } else {
        least(points.drop_last(), axis).smaller(place(points.last())[axis])
    }
}

/// The greatest coordinate of some points along an axis.
pub open spec fn greatest(points: Seq<Point>, axis: int) -> Real
    decreases points.len(),
{
    if points.len() == 0 {
        Real { bits: SMALLEST }
    } else {
        greatest(points.drop_last(), axis).larger(place(points.last())[axis])
    }
}

impl Bounds {
    /// The lower bound along an axis.
    pub open spec fn low(self, axis: int) -> Real {
        self.min@[axis]
    }

    /// The upper bound along an axis.
    pub open spec fn high(self, axis: int) -> Real {
        self.max@[axis]
    }

    /// Whether these are the bounds of some points.
    pub open spec fn bound(self, points: Seq<Point>) -> bool {
        forall|axis: int|
            #![trigger self.low(axis)]
            #![trigger self.high(axis)]
            0 <= axis < 3 ==> self.low(axis) == least(points, axis) && self.high(axis) == greatest(
                points,
                axis,
            )
    }

    /// Whether these bounds lie within others.
    pub open spec fn within(self, other: Bounds) -> bool {
        forall|axis: int|
            #![trigger self.low(axis)]
            #![trigger self.high(axis)]
            #![trigger other.low(axis)]
            #![trigger other.high(axis)]
            0 <= axis < 3 ==> other.low(axis).at_most(self.low(axis)) && self.high(axis).at_most(
                other.high(axis),
            )
    }

    /// Whether these bounds are numbers.
    pub open spec fn numbers(self) -> bool {
        forall|axis: int|
            #![trigger self.low(axis)]
            #![trigger self.high(axis)]
            0 <= axis < 3 ==> !self.low(axis).nan() && !self.high(axis).nan()
    }

    /// The bounds of no points.
    pub fn empty() -> (res: Bounds)
        ensures
            res.bound(Seq::empty()),
    {
        let largest = Real { bits: LARGEST };
        let smallest = Real { bits: SMALLEST };
        Bounds { min: [largest, largest, largest], max: [smallest, smallest, smallest] }
    }

    /// Widens the bounds to take in a point.
    pub fn include_point(&mut self, point: &Point)
        ensures
            forall|axis: int|
                0 <= axis < 3 ==> #[trigger] final(self).low(axis) == old(self).low(axis).smaller(
                    place(*point)[axis],
                ),
            forall|axis: int|
                0 <= axis < 3 ==> #[trigger] final(self).high(axis) == old(self).high(axis).larger(
                    place(*point)[axis],
                ),
    {
        self.min = [
            self.min[0].lesser(&point.x),
            self.min[1].lesser(&point.y),
            self.min[2].lesser(&point.z),
        ];
        self.max = [
            self.max[0].greater(&point.x),
            self.max[1].greater(&point.y),
            self.max[2].greater(&point.z),
        ];
    }

    /// What two bounds become together.
    pub open spec fn joined(self, other: Bounds, res: Bounds) -> bool {
        forall|axis: int|
            #![trigger res.low(axis)]
            #![trigger res.high(axis)]
            0 <= axis < 3 ==> res.low(axis) == self.low(axis).smaller(other.low(axis)) && res.high(axis)
                == self.high(axis).larger(other.high(axis))
    }

    /// Widens the bounds to take in others.
    pub fn include_bounds(&mut self, other: Bounds)
        ensures
            old(self).joined(other, *final(self)),
    {
        self.min = [
            self.min[0].lesser(&other.min[0]),
            self.min[1].lesser(&other.min[1]),
            self.min[2].lesser(&other.min[2]),
        ];
        self.max = [
            self.max[0].greater(&other.max[0]),
            self.max[1].greater(&other.max[1]),
            self.max[2].greater(&other.max[2]),
        ];
    }
}

/// The bounds of some points.
pub fn bounds_of(points: &Vec<Point>) -> (res: Bounds)
    ensures
        res.bound(points@),
{
    let mut bounds = Bounds::empty();
    let mut i: usize = 0;
    assert(points@.take(0) =~= Seq::<Point>::empty());
    while i < points.len()
        invariant
            i <= points@.len(),
            bounds.bound(points@.take(i as int)),
        decreases points.len() - i,
    {
        bounds.include_point(&points[i]);
        proof {
            let now = points@.take(i + 1);
            assert(now.drop_last() =~= points@.take(i as int));
            assert(now.last() == points@[i as int]);
        }
        i += 1;
    }
    assert(points@.take(points@.len() as int) =~= points@);
    bounds
}

/// Whether the coordinates of a point are numbers.
pub open spec fn finite_place(point: Point) -> bool {
    point.x.finite() && point.y.finite() && point.z.finite()
}

/// Why the bounds of a cloud cannot be told.
#[derive(Debug, Clone, Copy, PartialEq, Eq, Structural)]
pub enum ScanError {
    /// A coordinate is infinite or not a number.
    NotFinite,
    /// There are no points.
    Empty,
}

impl ScanError {
    /// Describes the error.
    pub fn message(&self) -> (res: String)
        ensures
            res@ == match *self {
                ScanError::NotFinite => "Cartesian point coordinates must be finite"@,
                ScanError::Empty => "input point cloud is empty"@,
            },
    {
        match self {
            ScanError::NotFinite => "Cartesian point coordinates must be finite".to_owned(),
            ScanError::Empty => "input point cloud is empty".to_owned(),
        }
    }
}

/// Finds the bounds of a cloud and the number of its points, point after point.
pub struct BoundsScan {
    bounds: Bounds,
    count: u64,
    points: Ghost<Seq<Point>>,
}

impl View for BoundsScan {
    type V = Seq<Point>;

    closed spec fn view(&self) -> Seq<Point> {
        self.points@
    }
}

impl BoundsScan {
    /// The points are counted and bounded, and their coordinates are numbers.
    pub closed spec fn wf(&self) -> bool {
        &&& self.count == self.points@.len()
        &&& self.bounds.bound(self.points@)
        &&& forall|i: int| 0 <= i < self.points@.len() ==> finite_place(#[trigger] self.points@[i])
    }

    /// No points yet.
    pub fn new() -> (res: BoundsScan)
        ensures
            res.wf(),
            res@ == Seq::<Point>::empty(),
    {
        BoundsScan { bounds: Bounds::empty(), count: 0, points: Ghost(Seq::empty()) }
    }

    /// Takes in a point, whose coordinates must be numbers.
    pub fn include_point(&mut self, point: &Point) -> (res: Result<(), ScanError>)
        requires
            old(self).wf(),
            old(self)@.len() < u64::MAX,
        ensures
            final(self).wf(),
            if finite_place(*point) {
                res is Ok && final(self)@ == old(self)@.push(*point)
            } else {
                res == Err::<(), ScanError>(ScanError::NotFinite) && final(self)@ == old(self)@
            },
    {
        if !point.x.is_finite() || !point.y.is_finite() || !point.z.is_finite() {
            return Err(ScanError::NotFinite);
        }
        self.bounds.include_point(point);
        self.count = self.count + 1;
        proof {
            self.points@ = self.points@.push(*point);
            assert(self.points@.drop_last() =~= old(self).points@);
        }
        Ok(())
    }

    /// The bounds of the points and their number.
    pub fn finish(&self) -> (res: Result<(Bounds, u64), ScanError>)
        requires
            self.wf(),
        ensures
            match res {
                Ok((bounds, count)) => self@.len() > 0 && bounds.bound(self@) && count == self@.len(),
                Err(error) => self@.len() == 0 && error == ScanError::Empty,
            },
            forall|i: int| 0 <= i < self@.len() ==> finite_place(#[trigger] self@[i]),
    {
        if self.count == 0 {
            Err(ScanError::Empty)
        } else {
            Ok((self.bounds, self.count))
        }
    }
}

/// Every number lies between the smallest and the largest.
proof fn lemma_number_range(r: Real)
    requires
        r.finite(),
    ensures
        (Real { bits: SMALLEST }).at_most(r),
        r.at_most(Real { bits: LARGEST }),
{
    let top = 0x7fef_ffff_ffff_ffffnat;
    assert((Real { bits: SMALLEST }).magnitude() == top);
    assert((Real { bits: LARGEST }).magnitude() == top);
    if r.magnitude() < top {
        crate::binary64::lemma_magnitude_increases(r.magnitude(), top);
    }
}

/// The bounds hold every point, and along each axis some point lies on each of
/// them.
pub proof fn lemma_bounds_hold(points: Seq<Point>, axis: int)
    requires
        0 <= axis < 3,
        points.len() > 0,
        forall|i: int| 0 <= i < points.len() ==> finite_place(#[trigger] points[i]),
    ensures
        least(points, axis).finite(),
        greatest(points, axis).finite(),
        forall|i: int|
            0 <= i < points.len() ==> least(points, axis).at_most(
                place(#[trigger] points[i])[axis],
            ) && place(points[i])[axis].at_most(greatest(points, axis)),
        exists|i: int|
            0 <= i < points.len() && least(points, axis).units() == place(
                #[trigger] points[i],
            )[axis].units(),
        exists|i: int|
            0 <= i < points.len() && greatest(points, axis).units() == place(
                #[trigger] points[i],
            )[axis].units(),
    decreases points.len(),
{
    let n = points.len() - 1;
    let less = points.drop_last();
    let last = place(points[n])[axis];
    assert(finite_place(points[n]));
    assert(last.finite());
    if n == 0 {
        lemma_number_range(last);
        assert(least(less, axis) == (Real { bits: LARGEST }));
        assert(greatest(less, axis) == (Real { bits: SMALLEST }));
        assert(least(points, axis).units() == place(points[0])[axis].units());
        assert(greatest(points, axis).units() == place(points[0])[axis].units());
    } else {
        assert forall|i: int| 0 <= i < less.len() implies finite_place(#[trigger] less[i]) by {
            assert(less[i] == points[i]);
        }
        lemma_bounds_hold(less, axis);
        let low = choose|i: int|
            0 <= i < less.len() && least(less, axis).units() == place(#[trigger] less[i])[axis].units();
        let high = choose|i: int|
            0 <= i < less.len() && greatest(less, axis).units() == place(#[trigger] less[i])[axis].units();
        assert(less[low] == points[low] && less[high] == points[high]);
        assert forall|i: int| 0 <= i < points.len() implies least(points, axis).at_most(
            place(#[trigger] points[i])[axis],
        ) && place(points[i])[axis].at_most(greatest(points, axis)) by {
            if i < n {
                assert(less[i] == points[i]);
            }
        }
        assert(least(points, axis).units() == place(points[low])[axis].units() || least(points, axis).units()
            == place(points[n])[axis].units());
        assert(greatest(points, axis).units() == place(points[high])[axis].units() || greatest(
            points,
            axis,
        ).units() == place(points[n])[axis].units());
    }
}

/// Bounds that take in others hold what either held.
pub proof fn lemma_joined_holds(a: Bounds, b: Bounds, res: Bounds)
    requires
        a.numbers(),
        b.numbers(),
        a.joined(b, res),
    ensures
        res.numbers(),
        a.within(res),
        b.within(res),
{
}

/// Bounds within bounds within others lie within those.
pub proof fn lemma_within_trans(a: Bounds, b: Bounds, c: Bounds)
    requires
        a.within(b),
        b.within(c),
    ensures
        a.within(c),
{
}

/// The coordinates of a point lie along the first, the second and the third axis.
pub proof fn lemma_place(point: Point)
    ensures
        place(point).len() == 3,
        place(point)[0] == point.x,
        place(point)[1] == point.y,
        place(point)[2] == point.z,
        finite_place(point) <==> forall|axis: int|
            0 <= axis < 3 ==> (#[trigger] place(point)[axis]).magnitude() < 0x7ff0_0000_0000_0000,
{
    let p = place(point);
    assert(p[0] == point.x && p[1] == point.y && p[2] == point.z);
}

/// Bounds that take in others are tight: along each axis, each of them is that of
/// one of the two.
pub proof fn lemma_joined_tight(a: Bounds, b: Bounds, res: Bounds, axis: int)
    requires
        a.joined(b, res),
        0 <= axis < 3,
    ensures
        res.low(axis) == a.low(axis) || res.low(axis) == b.low(axis),
        res.high(axis) == a.high(axis) || res.high(axis) == b.high(axis),
{
}

/// The bounds of no points are crossed as far as they can be: the lower is the
/// largest of all numbers, and the upper the smallest.
pub proof fn lemma_no_bounds(axis: int, r: Real)
    ensures
        least(Seq::empty(), axis).finite(),
        greatest(Seq::empty(), axis).finite(),
        r.finite() ==> r.at_most(least(Seq::empty(), axis)),
        r.finite() ==> greatest(Seq::empty(), axis).at_most(r),
{
    if r.finite() {
        lemma_number_range(r);
    }
}

/// The bounds of points hold each of them, and along each of the three axes a point
/// lies on the lower bound and a point on the upper.
pub proof fn lemma_bounds_of_points(bounds: Bounds, points: Seq<Point>, axis: int) -> (ends: (
    int,
    int,
))
    requires
        0 <= axis < 3,
        bounds.bound(points),
        points.len() > 0,
        forall|i: int| 0 <= i < points.len() ==> finite_place(#[trigger] points[i]),
    ensures
        forall|i: int|
            0 <= i < points.len() ==> bounds.min@[axis].at_most(place(#[trigger] points[i])[axis])
                && place(points[i])[axis].at_most(bounds.max@[axis]),
        0 <= ends.0 < points.len(),
        0 <= ends.1 < points.len(),
        place(points[ends.0])[axis].units() == bounds.min@[axis].units(),
        place(points[ends.1])[axis].units() == bounds.max@[axis].units(),
{
    lemma_bounds_hold(points, axis);
    assert(bounds.low(axis) == least(points, axis) && bounds.high(axis) == greatest(points, axis));
    let low = choose|i: int|
        0 <= i < points.len() && least(points, axis).units() == place(
            #[trigger] points[i],
        )[axis].units();
    let high = choose|i: int|
        0 <= i < points.len() && greatest(points, axis).units() == place(
            #[trigger] points[i],
        )[axis].units();
    (low, high)
}

} // verus!
