//! Conservative bounds between axis-aligned boxes, in design units.
use crate::labels::BBox;
use vstd::prelude::*;

verus! {

/// Whether `a` contains `b`.
pub open spec fn spec_contains(a: BBox, b: BBox) -> bool {
    a.x0 <= b.x0 && a.y0 <= b.y0 && a.x1 >= b.x1 && a.y1 >= b.y1
}

pub fn contains(a: BBox, b: BBox) -> (r: bool)
    ensures
        r == spec_contains(a, b),
{
    a.x0 <= b.x0 && a.y0 <= b.y0 && a.x1 >= b.x1 && a.y1 >= b.y1
}

/// Half of `v` rounded up, none below zero, held at `u64::MAX`.
pub open spec fn spec_ceil_half(v: int) -> int {
    let h = (if v > 0 {
        v
    } else {
        0
    } + 1) / 2;
    if h > u64::MAX {
        u64::MAX as int
    } else {
        h
    }
}

pub fn ceil_half(v: i128) -> (r: u64)
    requires
        v < i128::MAX,
    ensures
        r == spec_ceil_half(v as int),
{
    let m: i128 = if v > 0 {
        v
    } else {
        0
    };
    let h: i128 = (m + 1) / 2;
    if h > u64::MAX as i128 {
        u64::MAX
    } else {
        h as u64
    }
}

pub open spec fn max4(a: int, b: int, c: int, d: int) -> int {
    let ab = if a >= b {
        a
    } else {
        b
    };
    let cd = if c >= d {
        c
    } else {
        d
    };
    if ab >= cd {
        ab
    } else {
        cd
    }
}

/// A bound on how far any point of `outer` lies from `inner`: the largest
/// margin between their sides, none below zero, held at `u64::MAX`.
pub open spec fn spec_distance_to_rect(outer: BBox, inner: BBox) -> int {
    let m = max4(
        inner.x0 - outer.x0,
        outer.x1 - inner.x1,
        inner.y0 - outer.y0,
        outer.y1 - inner.y1,
    );
    if m < 0 {
        0
    } else if m > u64::MAX {
        u64::MAX as int
    } else {
        m
    }
}

pub fn distance_to_rect(outer: BBox, inner: BBox) -> (r: u64)
    ensures
        r == spec_distance_to_rect(outer, inner),
{
    let a: i128 = inner.x0 as i128 - outer.x0 as i128;
    let b: i128 = outer.x1 as i128 - inner.x1 as i128;
    let c: i128 = inner.y0 as i128 - outer.y0 as i128;
    let d: i128 = outer.y1 as i128 - inner.y1 as i128;
    let ab = if a >= b {
        a
    } else {
        b
    };
    let cd = if c >= d {
        c
    } else {
        d
    };
    let m = if ab >= cd {
        ab
    } else {
        cd
    };
    if m < 0 {
        0
    } else if m > u64::MAX as i128 {
        u64::MAX
    } else {
        m as u64
    }
}

} // verus!
