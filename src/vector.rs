use vstd::prelude::*;

verus! {

/// The largest magnitude a stored component may have, so that the difference
/// of two stored vectors still fits in an `i64`.
pub const MAX_COMPONENT: i64 = 0x3fff_ffff_ffff_ffff;

/// A vector of the simulation, with integer components in the simulation's
/// base units (length for positions, length per time for velocities and thrusts).
#[derive(Clone, Copy, Debug, PartialEq, Eq, Structural)]
pub struct Vec3 {
    pub x: i64,
    pub y: i64,
    pub z: i64,
}

pub open spec fn sq(a: int) -> int {
    a * a
}

impl Vec3 {
    /// Every component lies within `MAX_COMPONENT` of zero.
    pub open spec fn in_range(self) -> bool {
        &&& -MAX_COMPONENT <= self.x <= MAX_COMPONENT
        &&& -MAX_COMPONENT <= self.y <= MAX_COMPONENT
        &&& -MAX_COMPONENT <= self.z <= MAX_COMPONENT
    }

    /// The squared euclidean distance between two points.
    pub open spec fn dist2(self, o: Vec3) -> int {
        sq(self.x - o.x) + sq(self.y - o.y) + sq(self.z - o.z)
    }

    pub fn new(x: i64, y: i64, z: i64) -> (r: Vec3)
        ensures
            r == (Vec3 { x, y, z }),
    {
        Vec3 { x, y, z }
    }

    pub fn zero() -> (r: Vec3)
        ensures
            r == (Vec3 { x: 0, y: 0, z: 0 }),
    {
        Vec3 { x: 0, y: 0, z: 0 }
    }

    pub fn is_in_range(&self) -> (r: bool)
        ensures
            r == self.in_range(),
    {
        -MAX_COMPONENT <= self.x && self.x <= MAX_COMPONENT && -MAX_COMPONENT <= self.y
            && self.y <= MAX_COMPONENT && -MAX_COMPONENT <= self.z && self.z <= MAX_COMPONENT
    }

    /// The vector from `o` to `self`, where it fits.
    pub open spec fn minus(self, o: Vec3) -> Vec3 {
        Vec3 { x: (self.x - o.x) as i64, y: (self.y - o.y) as i64, z: (self.z - o.z) as i64 }
    }

    /// The vector from `o` to `self`.
    pub fn sub(&self, o: &Vec3) -> (r: Vec3)
        requires
            self.in_range(),
            o.in_range(),
        ensures
            r == self.minus(*o),
            r.x == self.x - o.x,
            r.y == self.y - o.y,
            r.z == self.z - o.z,
    {
        Vec3 { x: self.x - o.x, y: self.y - o.y, z: self.z - o.z }
    }
}

fn abs_diff(a: i64, b: i64) -> (r: u128)
    ensures
        r == if a >= b { a - b } else { b - a },
{
    let d: i128 = a as i128 - b as i128;
    if d >= 0 {
        d as u128
    } else {
        (-d) as u128
    }
}

/// Whether `p` lies in the closed ball of the given radius around `center`.
pub fn within_radius(p: &Vec3, center: &Vec3, radius: u64) -> (r: bool)
    ensures
        r == (p.dist2(*center) <= sq(radius as int)),
{
    let dx = abs_diff(p.x, center.x);
    let dy = abs_diff(p.y, center.y);
    let dz = abs_diff(p.z, center.z);
    let rr = radius as u128;
    proof {
        assert(sq(dx as int) == sq(p.x - center.x)) by (nonlinear_arith)
            requires dx == p.x - center.x || dx == center.x - p.x;
        assert(sq(dy as int) == sq(p.y - center.y)) by (nonlinear_arith)
            requires dy == p.y - center.y || dy == center.y - p.y;
        assert(sq(dz as int) == sq(p.z - center.z)) by (nonlinear_arith)
            requires dz == p.z - center.z || dz == center.z - p.z;
    }
    if dx > rr || dy > rr || dz > rr {
        proof {
            let d = if dx > rr { dx as int } else if dy > rr { dy as int } else { dz as int };
            assert(sq(d) > sq(rr as int)) by (nonlinear_arith)
                requires d > rr, rr >= 0;
            assert(sq(dx as int) >= 0 && sq(dy as int) >= 0 && sq(dz as int) >= 0) by (nonlinear_arith);
        }
        return false;
    }
    proof {
        assert(dx * dx <= rr * rr && dy * dy <= rr * rr && dz * dz <= rr * rr) by (nonlinear_arith)
            requires dx <= rr, dy <= rr, dz <= rr;
        assert(rr * rr <= 0xffff_ffff_ffff_fffe_0000_0000_0000_0001) by (nonlinear_arith)
            requires rr <= 0xffff_ffff_ffff_ffff;
    }
    let lim = rr * rr;
    let sx = dx * dx;
    let sy = dy * dy;
    let sz = dz * dz;
    match sx.checked_add(sy) {
        None => false,
        Some(sxy) => match sxy.checked_add(sz) {
            None => false,
            Some(s) => s <= lim,
        },
    }
}

} // verus!
