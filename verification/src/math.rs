//! Pairs of integers and of flags, and the vector arithmetic on them.
//!
//! Chunk coordinates and absolute tile coordinates are pairs of `i32`. The
//! component-wise arithmetic on them is done by glam, the vector library
//! that bevy ships; the functions here state what glam computes.

use vstd::prelude::*;

verus! {

/// A pair of signed integers: the coordinate of a chunk, or the absolute
/// coordinate of a tile.
#[derive(Debug, Clone, Copy, PartialEq, Eq, Hash, Structural)]
pub struct IVec2 {
    /// The horizontal component
    pub x: i32,
    /// The vertical component
    pub y: i32,
}

/// A pair of flags, one for each axis
#[derive(Debug, Clone, Copy, PartialEq, Eq, Hash, Structural)]
pub struct BVec2 {
    /// The flag of the horizontal axis
    pub x: bool,
    /// The flag of the vertical axis
    pub y: bool,
}

/// Whether `v` can be held in an `i32`
pub open spec fn fits_i32(v: int) -> bool {
    i32::MIN <= v <= i32::MAX
}

/// The quotient of `a` by a positive `d`, rounded towards zero
pub open spec fn quotient_to_zero(a: int, d: int) -> int {
    if a >= 0 {
        a / d
    } else {
        -((-a) / d)
    }
}

impl IVec2 {
    /// Creates a pair from its components
    pub fn new(x: i32, y: i32) -> (r: Self)
        ensures
            r.x == x,
            r.y == y,
    {
        IVec2 { x, y }
    }

    /// The pair whose components are both `v`
    pub fn splat(v: i32) -> (r: Self)
        ensures
            r.x == v,
            r.y == v,
    {
        IVec2 { x: v, y: v }
    }
}

impl BVec2 {
    /// Creates a pair of flags
    pub fn new(x: bool, y: bool) -> (r: Self)
        ensures
            r.x == x,
            r.y == y,
    {
        BVec2 { x, y }
    }
}

/// `a + b`, by glam's `Add` on `bevy::math::IVec2`.
///
/// glam adds the components with `i32`'s `+`, which fails on overflow, so
/// the sum of each component has to fit. The result is then the
/// component-wise sum.
#[verifier::external_body]
pub(crate) fn vec_sum(a: IVec2, b: IVec2) -> (r: IVec2)
    requires
        fits_i32(a.x + b.x),
        fits_i32(a.y + b.y),
    ensures
        r.x == a.x + b.x,
        r.y == a.y + b.y,
{
    let v = bevy::math::IVec2::new(a.x, a.y) + bevy::math::IVec2::new(b.x, b.y);
    IVec2 { x: v.x, y: v.y }
}

/// `a - b`, by glam's `Sub` on `bevy::math::IVec2`.
///
/// glam subtracts the components with `i32`'s `-`, which fails on
/// overflow, so the difference of each component has to fit. The result is
/// then the component-wise difference.
#[verifier::external_body]
pub(crate) fn vec_difference(a: IVec2, b: IVec2) -> (r: IVec2)
    requires
        fits_i32(a.x - b.x),
        fits_i32(a.y - b.y),
    ensures
        r.x == a.x - b.x,
        r.y == a.y - b.y,
{
    let v = bevy::math::IVec2::new(a.x, a.y) - bevy::math::IVec2::new(b.x, b.y);
    IVec2 { x: v.x, y: v.y }
}

/// `a * k`, by glam's `Mul<i32>` on `bevy::math::IVec2`.
///
/// glam multiplies each component by `k` with `i32`'s `*`, which fails on
/// overflow, so each product has to fit. The result is then the pair of
/// products.
#[verifier::external_body]
pub(crate) fn vec_scaled(a: IVec2, k: i32) -> (r: IVec2)
    requires
        fits_i32(a.x * k),
        fits_i32(a.y * k),
    ensures
        r.x == a.x * k,
        r.y == a.y * k,
{
    let v = bevy::math::IVec2::new(a.x, a.y) * k;
    IVec2 { x: v.x, y: v.y }
}

/// `a / (d, d)`, by glam's `Div` on `bevy::math::IVec2` and its `splat`.
///
/// glam divides the components with `i32`'s `/`, which rounds towards zero
/// and fails for a zero divisor and for `i32::MIN / -1`; a positive divisor
/// leaves neither case.
#[verifier::external_body]
pub(crate) fn vec_quotient(a: IVec2, d: i32) -> (r: IVec2)
    requires
        d > 0,
    ensures
        r.x == quotient_to_zero(a.x as int, d as int),
        r.y == quotient_to_zero(a.y as int, d as int),
{
    let v = bevy::math::IVec2::new(a.x, a.y) / bevy::math::IVec2::splat(d);
    IVec2 { x: v.x, y: v.y }
}

} // verus!
