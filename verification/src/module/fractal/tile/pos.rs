use vstd::prelude::*;
use crate::math::trunc_div;

verus! {

/// A square tile of the fractal plane: at depth `z` the unit square is cut into
/// `2^z * 2^z` tiles, and `(x, y)` names one of them.
#[derive(Clone, Copy, PartialEq, Eq, Structural, Hash, PartialOrd, Ord, Debug)]
pub struct TilePos {
    pub z: u8,
    pub x: i64,
    pub y: i64,
}

impl TilePos {
    pub fn root() -> (r: TilePos)
        ensures
            r == (TilePos { x: 0, y: 0, z: 0 }),
    {
        TilePos { x: 0, y: 0, z: 0 }
    }

    /// Move to the tile one level up that holds this one; the root level stays.
    pub fn parent(&mut self)
        ensures
            old(self).z == 0 ==> *final(self) == *old(self),
            old(self).z > 0 ==> *final(self) == (TilePos {
                x: trunc_div(old(self).x as int, 2) as i64,
                y: trunc_div(old(self).y as int, 2) as i64,
                z: (old(self).z - 1) as u8,
            }),
    {
        if self.z > 0 {
            let x = self.x / 2;
            let y = self.y / 2;
            assert(self.x >= 0 ==> x == self.x as int / 2);
            assert(self.x < 0 ==> x == -((-self.x) as int / 2));
            assert(self.y >= 0 ==> y == self.y as int / 2);
            assert(self.y < 0 ==> y == -((-self.y) as int / 2));
            self.x = x;
            self.y = y;
            self.z -= 1;
        }
    }

    /// Move to the child `(dx, dy)` of this tile one level down.
    pub fn child(&mut self, dx: i64, dy: i64)
        requires
            old(self).z < 64,
            i64::MIN <= old(self).x * 2 <= i64::MAX,
            i64::MIN <= old(self).y * 2 <= i64::MAX,
            i64::MIN <= old(self).x * 2 + dx <= i64::MAX,
            i64::MIN <= old(self).y * 2 + dy <= i64::MAX,
        ensures
            final(self).x == old(self).x * 2 + dx,
            final(self).y == old(self).y * 2 + dy,
            final(self).z == old(self).z + 1,
    {
        self.x = self.x * 2 + dx;
        self.y = self.y * 2 + dy;
        self.z += 1;
    }

    /// The number of tiles along each side at this depth: `2^z`.
    pub fn max_size(&self) -> (r: u64)
        requires
            self.z < 64,
        ensures
            r == vstd::arithmetic::power2::pow2(self.z as nat),
    {
        proof {
            vstd::bits::lemma_u64_pow2_no_overflow(self.z as nat);
            vstd::bits::lemma_u64_shl_is_mul(1, self.z as u64);
            vstd::arithmetic::power2::lemma_pow2(self.z as nat);
        }
        1u64 << self.z
    }
}

} // verus!
