use vstd::prelude::*;

verus! {

/// Largest magnitude a canvas coordinate may take; computed coordinates are
/// clamped into `[-COORD_LIMIT, COORD_LIMIT]`.
pub const COORD_LIMIT: i64 = 1_000_000_000_000;

/// Clamps an unbounded coordinate into the canvas coordinate range.
pub open spec fn clamp(v: int) -> int {
    if v > COORD_LIMIT as int {
        COORD_LIMIT as int
    } else if v < -(COORD_LIMIT as int) {
        -(COORD_LIMIT as int)
    } else {
        v
    }
}

/// A coordinate that lies inside the canvas coordinate range.
pub open spec fn in_range(v: int) -> bool {
    -(COORD_LIMIT as int) <= v <= COORD_LIMIT as int
}

/// A point on the canvas, in whole pixels.
#[derive(Clone, Copy, Debug, PartialEq, Eq, Structural)]
pub struct Pos2 {
    pub x: i64,
    pub y: i64,
}

/// A displacement on the canvas, in whole pixels.
#[derive(Clone, Copy, Debug, PartialEq, Eq, Structural)]
pub struct Vec2 {
    pub x: i64,
    pub y: i64,
}

impl Pos2 {
    pub open spec fn wf(self) -> bool {
        in_range(self.x as int) && in_range(self.y as int)
    }
}

impl Vec2 {
    pub open spec fn wf(self) -> bool {
        in_range(self.x as int) && in_range(self.y as int)
    }
}

/// Where a block's children are anchored, relative to the block.
#[derive(Clone, Copy, Debug, PartialEq, Eq, Structural)]
pub struct Offset {
    pub x: i64,
    pub y: i64,
}

impl Offset {
    pub open spec fn wf(self) -> bool {
        in_range(self.x as int) && in_range(self.y as int)
    }

    pub fn vec2(self) -> (r: Vec2)
        ensures
            r.x == self.x,
            r.y == self.y,
    {
        Vec2 { x: self.x, y: self.y }
    }
}

/// Computes `clamp(a + b + c + k * d)` without overflow.
pub fn clamped_sum(a: i64, b: i64, c: i64, k: usize, d: i64) -> (r: i64)
    requires
        in_range(a as int),
        in_range(b as int),
        in_range(c as int),
        in_range(d as int),
    ensures
        r as int == clamp(a + b + c + k * d),
        in_range(r as int),
{
    assert(-(COORD_LIMIT as int) * 0x1_0000_0000_0000_0000 <= k * d <= (COORD_LIMIT as int) * 0x1_0000_0000_0000_0000) by (nonlinear_arith)
        requires
            in_range(d as int),
            0 <= k < 0x1_0000_0000_0000_0000,
    ;
    let kd: i128 = (k as i128) * (d as i128);
    let v: i128 = a as i128 + b as i128 + c as i128 + kd;
    if v > COORD_LIMIT as i128 {
        COORD_LIMIT
    } else if v < -(COORD_LIMIT as i128) {
        -COORD_LIMIT
    } else {
        v as i64
    }
}

} // verus!
