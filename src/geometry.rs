//! Integer sizes and points of the layout model, with saturating arithmetic.
use vstd::prelude::*;

verus! {

/// The extent a widget reports when it accepts any size.
pub const UNBOUNDED: u64 = 1_000_000_000;

#[derive(Clone, Copy, Debug, PartialEq, Eq, Structural)]
pub struct Size {
    pub width: u64,
    pub height: u64,
}

#[derive(Clone, Copy, Debug, PartialEq, Eq, Structural)]
pub struct Point {
    pub x: u64,
    pub y: u64,
}

/// `a + b`, capped at the largest `u64`.
pub open spec fn sat_add(a: u64, b: u64) -> u64 {
    if a + b > u64::MAX {
        u64::MAX
    } else {
        (a + b) as u64
    }
}

/// `a - b`, floored at zero.
pub open spec fn sat_sub(a: u64, b: u64) -> u64 {
    if a >= b {
        (a - b) as u64
    } else {
        0
    }
}

pub open spec fn max_u64(a: u64, b: u64) -> u64 {
    if a >= b {
        a
    } else {
        b
    }
}

/// `v` brought into `[lo, hi]`; where `lo > hi` the lower bound wins.
pub open spec fn clamp_u64(v: u64, lo: u64, hi: u64) -> u64 {
    if v > hi {
        max_u64(hi, lo)
    } else {
        max_u64(v, lo)
    }
}

pub fn add_sat(a: u64, b: u64) -> (r: u64)
    ensures
        r == sat_add(a, b),
{
    a.saturating_add(b)
}

pub fn sub_sat(a: u64, b: u64) -> (r: u64)
    ensures
        r == sat_sub(a, b),
{
    a.saturating_sub(b)
}

pub fn max_of(a: u64, b: u64) -> (r: u64)
    ensures
        r == max_u64(a, b),
{
    if a >= b {
        a
    } else {
        b
    }
}

pub fn clamp_of(v: u64, lo: u64, hi: u64) -> (r: u64)
    ensures
        r == clamp_u64(v, lo, hi),
{
    if v > hi {
        max_of(hi, lo)
    } else {
        max_of(v, lo)
    }
}

impl Size {
    pub open spec fn zero() -> Size {
        Size { width: 0, height: 0 }
    }

    pub fn new(width: u64, height: u64) -> (s: Size)
        ensures
            s.width == width,
            s.height == height,
    {
        Size { width, height }
    }

    /// The size that accepts anything.
    pub fn unbounded() -> (s: Size)
        ensures
            s.width == UNBOUNDED,
            s.height == UNBOUNDED,
    {
        Size { width: UNBOUNDED, height: UNBOUNDED }
    }
}

impl Point {
    pub fn new(x: u64, y: u64) -> (p: Point)
        ensures
            p.x == x,
            p.y == y,
    {
        Point { x, y }
    }
}

} // verus!
