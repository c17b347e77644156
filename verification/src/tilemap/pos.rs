use vstd::prelude::*;
use crate::math::trunc_div;

verus! {

/// A square tile of the fractal plane: at depth `z` the unit square is cut into
/// `2^z * 2^z` tiles, and `(x, y)` names one of them.
#[derive(Clone, Copy, PartialEq, Eq, Structural, Hash, PartialOrd, Ord, Debug)]
pub struct TilePos {
    pub z: u8,
    pub x: i64,
    pub y: i64,
}

impl TilePos {
    /// The root tile is the tile from 0,0 to 1,1
    pub fn root() -> (r: TilePos)
        ensures
            r == (TilePos { x: 0, y: 0, z: 0 }),
    {
        TilePos { x: 0, y: 0, z: 0 }
    }

    /// The tile one level up that holds this one; `None` for the root level.
    pub fn parent(&self) -> (r: Option<TilePos>)
        ensures
            self.z == 0 ==> r is None,
            self.z > 0 ==> r == Some(
                TilePos {
                    x: trunc_div(self.x as int, 2) as i64,
                    y: trunc_div(self.y as int, 2) as i64,
                    z: (self.z - 1) as u8,
                },
            ),
    {
        if self.z == 0 {
            return None;
        }
        let x = self.x / 2;
        let y = self.y / 2;
        assert(self.x >= 0 ==> x == self.x as int / 2);
        assert(self.x < 0 ==> x == -((-self.x) as int / 2));
        assert(self.y >= 0 ==> y == self.y as int / 2);
        assert(self.y < 0 ==> y == -((-self.y) as int / 2));
        Some(TilePos { x, y, z: self.z - 1 })
    }

    /// The number of tiles along each side at this depth: `2^z`.
    fn max_size(&self) -> (r: u64)
        requires
            self.z < 64,
        ensures
            r == vstd::arithmetic::power2::pow2(self.z as nat),
    {
        proof {
            vstd::bits::lemma_u64_pow2_no_overflow(self.z as nat);
            vstd::bits::lemma_u64_shl_is_mul(1, self.z as u64);
            vstd::arithmetic::power2::lemma_pow2(self.z as nat);
        }
        1u64 << self.z
    }

    /// Add to `dst` the tiles at depth `z` from `min` to `max` (both included,
    /// grown by `pad` on every side), the tiles nearest to the center first; tiles
    /// at the same distance stay in row order.
    pub fn between(min: TilePos, max: TilePos, z: u8, pad: i64, dst: &mut Vec<TilePos>)
        requires
            i64::MIN <= min.x - pad <= i64::MAX,
            i64::MIN <= min.y - pad <= i64::MAX,
            i64::MIN <= max.x + pad < i64::MAX,
            i64::MIN <= max.y + pad < i64::MAX,
            ({
                let lo_x = min.x - pad;
                let lo_y = min.y - pad;
                let hi_x = max.x + pad;
                let hi_y = max.y + pad;
                let cx = trunc_div(lo_x, 2) + trunc_div(hi_x, 2);
                let cy = trunc_div(lo_y, 2) + trunc_div(hi_y, 2);
                &&& reach(lo_x, hi_x, cx) * reach(lo_x, hi_x, cx) + reach(lo_y, hi_y, cy) * reach(lo_y, hi_y, cy) <= i64::MAX
                &&& (hi_x - lo_x + 1) * (hi_y - lo_y + 1) <= usize::MAX
            }),
        ensures
            ({
                let lo_x = min.x - pad;
                let lo_y = min.y - pad;
                let hi_x = max.x + pad;
                let hi_y = max.y + pad;
                let cx = trunc_div(lo_x, 2) + trunc_div(hi_x, 2);
                let cy = trunc_div(lo_y, 2) + trunc_div(hi_y, 2);
                let w = hi_x - lo_x + 1;
                let h = hi_y - lo_y + 1;
                let start = old(dst)@.len();
                let added = final(dst)@.subrange(start as int, final(dst)@.len() as int);
                &&& final(dst)@.take(start as int) == old(dst)@
                &&& added.len() == (if w > 0 && h > 0 { w * h } else { 0 })
                &&& forall|k: int| 0 <= k < added.len() ==> in_grid(#[trigger] added[k], lo_x, lo_y, hi_x, hi_y, z)
                &&& forall|k: int, l: int| 0 <= k < l < added.len() ==> center_first(#[trigger] added[k], #[trigger] added[l], cx, cy, lo_x, lo_y, w)
            }),
    {
        let lo_x = min.x - pad;
        let lo_y = min.y - pad;
        let hi_x = max.x + pad;
        let hi_y = max.y + pad;
        let cx = div2_i64(lo_x) + div2_i64(hi_x);
        let cy = div2_i64(lo_y) + div2_i64(hi_y);
        let ghost gx0 = lo_x as int;
        let ghost gy0 = lo_y as int;
        let ghost gx1 = hi_x as int;
        let ghost gy1 = hi_y as int;
        let ghost gcx = cx as int;
        let ghost gcy = cy as int;
        let ghost w = gx1 - gx0 + 1;
        proof {
            lemma_root_bound(reach(gx0, gx1, gcx), reach(gy0, gy1, gcy));
        }

        // the tiles with their distance, kept ordered as they are added in row order
        let mut sorted: Vec<(i64, TilePos)> = Vec::new();
        let mut y = lo_y;
        while y <= hi_y
            invariant
                gy0 <= y,
                y <= gy1 + 1 || y == gy0,
                gx0 == lo_x && gy0 == lo_y && gx1 == hi_x && gy1 == hi_y && gcx == cx && gcy == cy,
                w == gx1 - gx0 + 1,
                hi_x < i64::MAX && hi_y < i64::MAX,
                0 <= reach(gx0, gx1, gcx) <= 0xFFFF_FFFF,
                0 <= reach(gy0, gy1, gcy) <= 0xFFFF_FFFF,
                reach(gx0, gx1, gcx) * reach(gx0, gx1, gcx) + reach(gy0, gy1, gcy) * reach(gy0, gy1, gcy) <= i64::MAX,
                sorted@.len() == (if w > 0 { (y - gy0) * w } else { 0 }),
                w <= 0 ==> sorted@.len() == 0,
                forall|k: int| 0 <= k < sorted@.len() ==> in_grid(#[trigger] sorted@[k].1, gx0, gy0, gx1, gy1, z) && sorted@[k].1.y < y,
                forall|k: int| 0 <= k < sorted@.len() ==> #[trigger] sorted@[k].0 == dist2(sorted@[k].1, gcx, gcy),
                forall|k: int, l: int| 0 <= k < l < sorted@.len() ==> center_first(#[trigger] sorted@[k].1, #[trigger] sorted@[l].1, gcx, gcy, gx0, gy0, w),
            decreases gy1 + 1 - y,
        {
            let mut x = lo_x;
            while x <= hi_x
                invariant
                    gx0 <= x,
                    x <= gx1 + 1 || x == gx0,
                    gy0 <= y <= gy1,
                    gx0 == lo_x && gy0 == lo_y && gx1 == hi_x && gy1 == hi_y && gcx == cx && gcy == cy,
                    w == gx1 - gx0 + 1,
                    hi_x < i64::MAX && hi_y < i64::MAX,
                    0 <= reach(gx0, gx1, gcx) <= 0xFFFF_FFFF,
                    0 <= reach(gy0, gy1, gcy) <= 0xFFFF_FFFF,
                    reach(gx0, gx1, gcx) * reach(gx0, gx1, gcx) + reach(gy0, gy1, gcy) * reach(gy0, gy1, gcy) <= i64::MAX,
                    sorted@.len() == (if w > 0 { (y - gy0) * w + (x - gx0) } else { 0 }),
                    forall|k: int| 0 <= k < sorted@.len() ==> in_grid(#[trigger] sorted@[k].1, gx0, gy0, gx1, gy1, z) && (sorted@[k].1.y < y || (sorted@[k].1.y == y && sorted@[k].1.x < x)),
                    forall|k: int| 0 <= k < sorted@.len() ==> #[trigger] sorted@[k].0 == dist2(sorted@[k].1, gcx, gcy),
                    forall|k: int, l: int| 0 <= k < l < sorted@.len() ==> center_first(#[trigger] sorted@[k].1, #[trigger] sorted@[l].1, gcx, gcy, gx0, gy0, w),
                decreases gx1 + 1 - x,
            {
                let p = TilePos { x, y, z };
                proof {
                    lemma_square_le(x - gcx, reach(gx0, gx1, gcx));
                    lemma_square_le(y - gcy, reach(gy0, gy1, gcy));
                }
                let dx = x - cx;
                let dy = y - cy;
                let d = dx * dx + dy * dy;
                // the first place after every tile that is at most as far
                let mut k = sorted.len();
                while k > 0 && sorted[k - 1].0 > d
                    invariant
                        k <= sorted@.len(),
                        forall|j: int| k <= j < sorted@.len() ==> #[trigger] sorted@[j].0 > d,
                    decreases k,
                {
                    k = k - 1;
                }
                let ghost before = sorted@;
                proof {
                    assert forall|j: int| 0 <= j < before.len() implies grid_index(#[trigger] before[j].1, gx0, gy0, w) < grid_index(p, gx0, gy0, w) by {
                        lemma_row_order(before[j].1, p, gx0, gy0, gx1);
                    }
                    assert forall|j: int| 0 <= j < k implies #[trigger] before[j].0 <= d by {
                        if j < k - 1 {
                            assert(center_first(before[j].1, before[k - 1].1, gcx, gcy, gx0, gy0, w));
                        }
                    }
                }
                sorted.insert(k, (d, p));
                proof {
                    let after = sorted@;
                    assert(after == before.insert(k as int, (d, p)));
                    lemma_insert_center_first(before, k as int, d, p, gcx, gcy, gx0, gy0, w);
                    assert forall|j: int| 0 <= j < after.len() implies in_grid(#[trigger] after[j].1, gx0, gy0, gx1, gy1, z) && (after[j].1.y < y || (after[j].1.y == y && after[j].1.x < x + 1)) by {
                        if j < k {
                            assert(after[j] == before[j]);
                        } else if j > k {
                            assert(after[j] == before[j - 1]);
                        }
                    }
                    assert forall|j: int| 0 <= j < after.len() implies #[trigger] after[j].0 == dist2(after[j].1, gcx, gcy) by {
                        if j < k {
                            assert(after[j] == before[j]);
                        } else if j > k {
                            assert(after[j] == before[j - 1]);
                        }
                    }
                }
                x = x + 1;
            }
            proof {
                if w > 0 {
                    assert((y + 1 - gy0) * w == (y - gy0) * w + w) by (nonlinear_arith);
                }
            }
            y = y + 1;
        }
        let ghost start = dst@.len();
        let n = sorted.len();
        let mut i: usize = 0;
        while i < n
            invariant
                i <= n,
                n == sorted@.len(),
                dst@.len() == start + i,
                dst@.take(start as int) == old(dst)@,
                start == old(dst)@.len(),
                forall|k: int| 0 <= k < i ==> #[trigger] dst@[start + k] == sorted@[k].1,
            decreases n - i,
        {
            dst.push(sorted[i].1);
            i = i + 1;
            proof {
                assert(dst@.take(start as int) =~= old(dst)@);
            }
        }
        proof {
            let added = dst@.subrange(start as int, dst@.len() as int);
            assert forall|k: int| 0 <= k < added.len() implies #[trigger] added[k] == sorted@[k].1 by {
                assert(added[k] == dst@[start + k]);
            }
            let h = gy1 - gy0 + 1;
            if w > 0 && h > 0 {
                assert(y == gy1 + 1);
                assert((y - gy0) * w == w * h) by (nonlinear_arith)
                    requires
                        y - gy0 == h,
                ;
            }
            assert(added.len() == (if w > 0 && h > 0 { w * h } else { 0 }));
            assert forall|k: int| 0 <= k < added.len() implies in_grid(#[trigger] added[k], gx0, gy0, gx1, gy1, z) by {
                assert(added[k] == sorted@[k].1);
            }
            assert forall|k: int, l: int| 0 <= k < l < added.len() implies center_first(#[trigger] added[k], #[trigger] added[l], gcx, gcy, gx0, gy0, w) by {
                assert(added[k] == sorted@[k].1);
                assert(added[l] == sorted@[l].1);
            }
        }
    }
}

/// A square root bound: reaches whose squares sum to an `i64` are below `2^32`.
proof fn lemma_root_bound(a: int, b: int)
    requires
        a >= 0,
        b >= 0,
        a * a + b * b <= i64::MAX,
    ensures
        a <= 0xFFFF_FFFF,
        b <= 0xFFFF_FFFF,
{
    if a > 0xFFFF_FFFF {
        assert(a * a > 0xFFFF_FFFF * 0xFFFF_FFFF) by (nonlinear_arith)
            requires
                a > 0xFFFF_FFFF,
        ;
        assert(b * b >= 0) by (nonlinear_arith);
    }
    if b > 0xFFFF_FFFF {
        assert(b * b > 0xFFFF_FFFF * 0xFFFF_FFFF) by (nonlinear_arith)
            requires
                b > 0xFFFF_FFFF,
        ;
        assert(a * a >= 0) by (nonlinear_arith);
    }
}

/// A value no further from zero than `r` has a square no larger than `r`'s.
proof fn lemma_square_le(v: int, r: int)
    requires
        crate::math::abs(v) <= r,
    ensures
        v * v <= r * r,
        v * v >= 0,
{
    assert(v * v <= r * r && v * v >= 0) by (nonlinear_arith)
        requires
            -r <= v <= r,
    ;
}

/// Row order is grid index order.
proof fn lemma_row_order(a: TilePos, b: TilePos, lo_x: int, lo_y: int, hi_x: int)
    requires
        lo_x <= a.x <= hi_x,
        lo_x <= b.x <= hi_x,
        a.y < b.y || (a.y == b.y && a.x < b.x),
    ensures
        grid_index(a, lo_x, lo_y, hi_x - lo_x + 1) < grid_index(b, lo_x, lo_y, hi_x - lo_x + 1),
{
    let w = hi_x - lo_x + 1;
    if a.y < b.y {
        assert((b.y - lo_y) * w >= (a.y - lo_y) * w + w) by (nonlinear_arith)
            requires
                a.y < b.y,
                w > 0,
        ;
    }
}

/// `a / 2` on `i64`, rounded toward zero.
fn div2_i64(a: i64) -> (q: i64)
    ensures
        q == trunc_div(a as int, 2),
        -0x4000_0000_0000_0000 <= q < 0x4000_0000_0000_0000,
{
    let q = a / 2;
    assert(a >= 0 ==> q == a as int / 2);
    assert(a < 0 ==> q == -((-a) as int / 2));
    q
}

/// The squared distance from `p` to `(cx, cy)`.
pub open spec fn dist2(p: TilePos, cx: int, cy: int) -> int {
    (p.x - cx) * (p.x - cx) + (p.y - cy) * (p.y - cy)
}

/// The place of `p` in the rows of the grid that starts at `(lo_x, lo_y)` and is
/// `w` wide: row by row, left to right.
pub open spec fn grid_index(p: TilePos, lo_x: int, lo_y: int, w: int) -> int {
    (p.y - lo_y) * w + (p.x - lo_x)
}

/// `p` lies in the grid `[lo_x, hi_x] x [lo_y, hi_y]` at depth `z`.
pub open spec fn in_grid(p: TilePos, lo_x: int, lo_y: int, hi_x: int, hi_y: int, z: u8) -> bool {
    lo_x <= p.x <= hi_x && lo_y <= p.y <= hi_y && p.z == z
}

/// `a` comes before `b` when ordered by distance to the center, and by place in
/// the grid among tiles at the same distance.
pub open spec fn center_first(a: TilePos, b: TilePos, cx: int, cy: int, lo_x: int, lo_y: int, w: int) -> bool {
    dist2(a, cx, cy) < dist2(b, cx, cy) || (dist2(a, cx, cy) == dist2(b, cx, cy) && grid_index(
        a,
        lo_x,
        lo_y,
        w,
    ) < grid_index(b, lo_x, lo_y, w))
}

/// The larger distance from `c` to either end of `[lo, hi]`.
pub open spec fn reach(lo: int, hi: int, c: int) -> int {
    if crate::math::abs(lo - c) < crate::math::abs(hi - c) {
        crate::math::abs(hi - c)
    } else {
        crate::math::abs(lo - c)
    }
}

/// Two to the power 64, the number of values of an `i64` or a `u64`.
pub open spec fn two_pow_64() -> int {
    0x1_0000_0000_0000_0000
}

/// The position of a tile in the order that the derived `Ord` gives: by `z`,
/// then `x`, then `y`, folded into one integer.
pub open spec fn pos_rank(p: TilePos) -> int {
    (p.z as int * two_pow_64() + (p.x as int + 0x8000_0000_0000_0000)) * two_pow_64()
        + (p.y as int + 0x8000_0000_0000_0000)
}

/// Every rank lies below `256 * 2^128`.
pub open spec fn pos_rank_bound() -> int {
    0x100 * two_pow_64() * two_pow_64()
}

pub proof fn lemma_pos_rank_bounds(p: TilePos)
    ensures
        0 <= pos_rank(p) < pos_rank_bound(),
{
    assert(0 <= pos_rank(p) < pos_rank_bound()) by (nonlinear_arith)
        requires
            0 <= p.z < 256,
            0 <= p.x as int + 0x8000_0000_0000_0000 < two_pow_64(),
            0 <= p.y as int + 0x8000_0000_0000_0000 < two_pow_64(),
            two_pow_64() == 0x1_0000_0000_0000_0000,
            pos_rank(p) == (p.z as int * two_pow_64() + (p.x as int + 0x8000_0000_0000_0000))
                * two_pow_64() + (p.y as int + 0x8000_0000_0000_0000),
            pos_rank_bound() == 0x100 * two_pow_64() * two_pow_64(),
    ;
}

/// Distinct tiles have distinct ranks, and the rank order is the
/// lexicographic order on `(z, x, y)`.
pub proof fn lemma_pos_rank_lex(a: TilePos, b: TilePos)
    ensures
        (pos_rank(a) == pos_rank(b)) == (a == b),
        (pos_rank(a) < pos_rank(b)) == (a.z < b.z || (a.z == b.z && (a.x < b.x || (a.x == b.x
            && a.y < b.y)))),
{
    let ax = a.x as int + 0x8000_0000_0000_0000;
    let ay = a.y as int + 0x8000_0000_0000_0000;
    let bx = b.x as int + 0x8000_0000_0000_0000;
    let by = b.y as int + 0x8000_0000_0000_0000;
    let c = two_pow_64();
    assert(pos_rank(a) == (a.z as int * c + ax) * c + ay);
    assert(pos_rank(b) == (b.z as int * c + bx) * c + by);
    lex3(a.z as int, ax, ay, b.z as int, bx, by, c);
}

proof fn lex3(z1: int, x1: int, y1: int, z2: int, x2: int, y2: int, c: int)
    requires
        c > 0,
        0 <= x1 < c,
        0 <= y1 < c,
        0 <= x2 < c,
        0 <= y2 < c,
    ensures
        (((z1 * c + x1) * c + y1) == ((z2 * c + x2) * c + y2)) == (z1 == z2 && x1 == x2 && y1
            == y2),
        (((z1 * c + x1) * c + y1) < ((z2 * c + x2) * c + y2)) == (z1 < z2 || (z1 == z2 && (x1
            < x2 || (x1 == x2 && y1 < y2)))),
{
    lex2(z1 * c + x1, y1, z2 * c + x2, y2, c);
    lex2(z1, x1, z2, x2, c);
}

pub proof fn lex2(h1: int, l1: int, h2: int, l2: int, c: int)
    requires
        c > 0,
        0 <= l1 < c,
        0 <= l2 < c,
    ensures
        ((h1 * c + l1) == (h2 * c + l2)) == (h1 == h2 && l1 == l2),
        ((h1 * c + l1) < (h2 * c + l2)) == (h1 < h2 || (h1 == h2 && l1 < l2)),
{
    if h1 < h2 {
        assert(h1 * c + c <= h2 * c) by (nonlinear_arith)
            requires
                h1 < h2,
                c > 0,
        ;
    } else if h1 > h2 {
        assert(h2 * c + c <= h1 * c) by (nonlinear_arith)
            requires
                h2 < h1,
                c > 0,
        ;
    }
}

/// Putting the tile `p`, at distance `d`, in at the first place after every
/// tile that is at most as far keeps the tiles ordered center first, when
/// `p` comes after all of them in the grid.
#[verifier::spinoff_prover]
proof fn lemma_insert_center_first(
    before: Seq<(i64, TilePos)>,
    k: int,
    d: i64,
    p: TilePos,
    cx: int,
    cy: int,
    lo_x: int,
    lo_y: int,
    w: int,
)
    requires
        0 <= k <= before.len(),
        forall|a: int, b: int|
            0 <= a < b < before.len() ==> center_first(#[trigger] before[a].1, #[trigger] before[b].1, cx, cy, lo_x, lo_y, w),
        forall|j: int| 0 <= j < before.len() ==> #[trigger] before[j].0 == dist2(before[j].1, cx, cy),
        d == dist2(p, cx, cy),
        forall|j: int| 0 <= j < k ==> #[trigger] before[j].0 <= d,
        forall|j: int| k <= j < before.len() ==> #[trigger] before[j].0 > d,
        forall|j: int|
            0 <= j < before.len() ==> grid_index(#[trigger] before[j].1, lo_x, lo_y, w) < grid_index(p, lo_x, lo_y, w),
    ensures
        ({
            let after = before.insert(k, (d, p));
            forall|a: int, b: int|
                0 <= a < b < after.len() ==> center_first(#[trigger] after[a].1, #[trigger] after[b].1, cx, cy, lo_x, lo_y, w)
        }),
{
    let after = before.insert(k, (d, p));
    assert forall|a: int, b: int| 0 <= a < b < after.len() implies center_first(
        #[trigger] after[a].1,
        #[trigger] after[b].1,
        cx,
        cy,
        lo_x,
        lo_y,
        w,
    ) by {
        if b < k {
            assert(after[a] == before[a] && after[b] == before[b]);
            assert(center_first(before[a].1, before[b].1, cx, cy, lo_x, lo_y, w));
        } else if b == k {
            assert(after[a] == before[a]);
            assert(after[b] == (d, p));
            let da = before[a].0;
            assert(da == dist2(before[a].1, cx, cy));
            assert(da <= d);
            assert(grid_index(before[a].1, lo_x, lo_y, w) < grid_index(p, lo_x, lo_y, w));
        } else if a == k {
            assert(after[a] == (d, p));
            assert(after[b] == before[b - 1]);
            let db = before[b - 1].0;
            assert(db == dist2(before[b - 1].1, cx, cy));
            assert(d < db);
        } else if a < k {
            assert(after[a] == before[a] && after[b] == before[b - 1]);
            assert(center_first(before[a].1, before[b - 1].1, cx, cy, lo_x, lo_y, w));
        } else {
            assert(after[a] == before[a - 1] && after[b] == before[b - 1]);
            assert(center_first(before[a - 1].1, before[b - 1].1, cx, cy, lo_x, lo_y, w));
        }
    }
}

} // verus!
