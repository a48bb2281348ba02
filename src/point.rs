//! The point capability: anything that exposes an integer coordinate per axis.
use vstd::prelude::*;

verus! {

/// A point of dimension `D` whose coordinate on each axis is an `i32`.
pub trait Point<const D: usize> {
    /// The coordinate of this point on `axis`.
    spec fn coord(&self, axis: int) -> int;

    /// Returns the coordinate of this point on `axis`.
    fn get_axis(&self, axis: usize) -> (r: i32)
        requires
            axis < D,
        ensures
            r as int == self.coord(axis as int),
    ;
}

impl<const D: usize> Point<D> for [i32; D] {
    open spec fn coord(&self, axis: int) -> int {
        self@[axis] as int
    }

    fn get_axis(&self, axis: usize) -> (r: i32) {
        self[axis]
    }
}

impl Point<2> for (i32, i32) {
    open spec fn coord(&self, axis: int) -> int {
        if axis == 0 {
            self.0 as int
        } else {
            self.1 as int
        }
    }

    fn get_axis(&self, axis: usize) -> (r: i32) {
        if axis == 0 {
            self.0
        } else {
            self.1
        }
    }
}

impl Point<3> for (i32, i32, i32) {
    open spec fn coord(&self, axis: int) -> int {
        if axis == 0 {
            self.0 as int
        } else if axis == 1 {
            self.1 as int
        } else {
            self.2 as int
        }
    }

    fn get_axis(&self, axis: usize) -> (r: i32) {
        if axis == 0 {
            self.0
        } else if axis == 1 {
            self.1
        } else {
            self.2
        }
    }
}

impl Point<1> for i32 {
    open spec fn coord(&self, axis: int) -> int {
        *self as int
    }

    fn get_axis(&self, axis: usize) -> (r: i32) {
        *self
    }
}

impl<const D: usize> Point<D> for [i16; D] {
    open spec fn coord(&self, axis: int) -> int {
        self@[axis] as int
    }

    fn get_axis(&self, axis: usize) -> (r: i32) {
        self[axis] as i32
    }
}

impl Point<1> for i16 {
    open spec fn coord(&self, axis: int) -> int {
        *self as int
    }

    fn get_axis(&self, axis: usize) -> (r: i32) {
        *self as i32
    }
}

impl<const D: usize> Point<D> for [i8; D] {
    open spec fn coord(&self, axis: int) -> int {
        self@[axis] as int
    }

    fn get_axis(&self, axis: usize) -> (r: i32) {
        self[axis] as i32
    }
}

impl Point<1> for i8 {
    open spec fn coord(&self, axis: int) -> int {
        *self as int
    }

    fn get_axis(&self, axis: usize) -> (r: i32) {
        *self as i32
    }
}

impl<const D: usize> Point<D> for [u16; D] {
    open spec fn coord(&self, axis: int) -> int {
        self@[axis] as int
    }

    fn get_axis(&self, axis: usize) -> (r: i32) {
        self[axis] as i32
    }
}

impl Point<1> for u16 {
    open spec fn coord(&self, axis: int) -> int {
        *self as int
    }

    fn get_axis(&self, axis: usize) -> (r: i32) {
        *self as i32
    }
}

impl<const D: usize> Point<D> for [u8; D] {
    open spec fn coord(&self, axis: int) -> int {
        self@[axis] as int
    }

    fn get_axis(&self, axis: usize) -> (r: i32) {
        self[axis] as i32
    }
}

impl Point<1> for u8 {
    open spec fn coord(&self, axis: int) -> int {
        *self as int
    }

    fn get_axis(&self, axis: usize) -> (r: i32) {
        *self as i32
    }
}

/// The square of `x`.
pub open spec fn square(x: int) -> int {
    x * x
}

/// Sum of the squared coordinate differences over the first `n` axes.
pub open spec fn partial_distance_squared<P: Point<D>, const D: usize>(a: P, b: P, n: int) -> int
    decreases n,
{
    if n <= 0 {
        0
    } else {
        partial_distance_squared::<P, D>(a, b, n - 1) + square(a.coord(n - 1) - b.coord(n - 1))
    }
}

/// The squared euclidean distance between two points.
pub open spec fn dist_squared<P: Point<D>, const D: usize>(a: P, b: P) -> int {
    partial_distance_squared::<P, D>(a, b, D as int)
}

/// `b` lies in the closed ball of `radius` around `a`; a negative radius holds nothing.
pub open spec fn within<P: Point<D>, const D: usize>(a: P, b: P, radius: int) -> bool {
    radius >= 0 && dist_squared::<P, D>(a, b) <= radius * radius
}

/// The squared distance is at least the squared difference on any single axis.
pub proof fn lemma_axis_bounds_distance<P: Point<D>, const D: usize>(a: P, b: P, n: int, axis: int)
    requires
        0 <= axis < n,
    ensures
        partial_distance_squared::<P, D>(a, b, n) >= square(a.coord(axis) - b.coord(axis)),
    decreases n,
{
    lemma_partial_distance_nonneg::<P, D>(a, b, n - 1);
    if axis < n - 1 {
        lemma_axis_bounds_distance::<P, D>(a, b, n - 1, axis);
    }
    assert(square(a.coord(n - 1) - b.coord(n - 1)) >= 0) by (nonlinear_arith);
}

pub proof fn lemma_partial_distance_nonneg<P: Point<D>, const D: usize>(a: P, b: P, n: int)
    ensures
        partial_distance_squared::<P, D>(a, b, n) >= 0,
    decreases n,
{
    if n > 0 {
        lemma_partial_distance_nonneg::<P, D>(a, b, n - 1);
        assert(square(a.coord(n - 1) - b.coord(n - 1)) >= 0) by (nonlinear_arith);
    }
}

/// Returns the squared euclidean distance between `a` and `b`, computed exactly.
pub fn distance_squared<P: Point<D>, const D: usize>(a: &P, b: &P) -> (r: u128)
    ensures
        r as int == dist_squared::<P, D>(*a, *b),
{
    let mut acc: u128 = 0;
    let mut i: usize = 0;
    while i < D
        invariant
            i <= D,
            acc as int == partial_distance_squared::<P, D>(*a, *b, i as int),
            acc as int <= i as int * 0x1_0000_0000_0000_0000,
        decreases D - i,
    {
        let x = a.get_axis(i);
        let y = b.get_axis(i);
        let delta: i64 = x as i64 - y as i64;
        assert(delta as int * delta as int <= 0x1_0000_0000_0000_0000) by (nonlinear_arith)
            requires
                -0x1_0000_0000 < delta < 0x1_0000_0000,
        ;
        assert(0 <= delta as int * delta as int) by (nonlinear_arith);
        let term: u128 = (delta as i128 * delta as i128) as u128;
        assert(i as int * 0x1_0000_0000_0000_0000 + 0x1_0000_0000_0000_0000 <= 0x1_0000_0000_0000_0000
            * 0x1_0000_0000_0000_0000) by (nonlinear_arith)
            requires
                i < 0x1_0000_0000_0000_0000,
        ;
        acc = acc + term;
        i = i + 1;
    }
    acc
}

/// Returns whether `b` lies within `radius` of `a`.
pub fn point_within<P: Point<D>, const D: usize>(a: &P, b: &P, radius: i64) -> (r: bool)
    ensures
        r == within::<P, D>(*a, *b, radius as int),
{
    if radius < 0 {
        return false;
    }
    let d = distance_squared::<P, D>(a, b);
    assert(0 <= radius as int * radius as int <= 0x8000_0000_0000_0000 * 0x8000_0000_0000_0000)
        by (nonlinear_arith)
        requires
            0 <= radius < 0x8000_0000_0000_0000,
    ;
    let r2: u128 = (radius as i128 * radius as i128) as u128;
    d <= r2
}

} // verus!
