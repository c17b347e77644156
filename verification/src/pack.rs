//! Like buddy allocation but in 2d
use vstd::prelude::*;
use crate::math::{V2i, trunc_div};

verus! {

/// A square region: its corner with the smallest coordinates and its side.
#[derive(Clone, Copy, PartialEq, Eq, Structural, Debug, Hash)]
pub struct Block {
    pub pos: V2i,
    pub size: i32,
}

/// `n` is a power of two.
pub open spec fn is_pow2(n: int) -> bool
    decreases n,
{
    if n <= 0 {
        false
    } else if n == 1 {
        true
    } else {
        n % 2 == 0 && is_pow2(n / 2)
    }
}

/// The largest side a pack may have, so that doubling any of its blocks stays
/// within `i32`.
pub open spec fn max_pack_size() -> int {
    0x2000_0000
}

impl Block {
    /// The cell `(x, y)` lies in this block.
    pub open spec fn contains(self, x: int, y: int) -> bool {
        &&& self.pos.x <= x < self.pos.x + self.size
        &&& self.pos.y <= y < self.pos.y + self.size
    }

    /// The two blocks share no cell (one lies fully beside or above the other).
    pub open spec fn disjoint(self, o: Block) -> bool {
        ||| self.pos.x + self.size <= o.pos.x
        ||| o.pos.x + o.size <= self.pos.x
        ||| self.pos.y + self.size <= o.pos.y
        ||| o.pos.y + o.size <= self.pos.y
    }

    /// A block that a buddy allocator of side `side` can hand out: its side is a
    /// power of two, it is aligned to its side, and it lies inside the square.
    pub open spec fn placed_in(self, side: int) -> bool {
        &&& is_pow2(self.size as int)
        &&& self.pos.x % self.size == 0
        &&& self.pos.y % self.size == 0
        &&& 0 <= self.pos.x
        &&& self.pos.x + self.size <= side
        &&& 0 <= self.pos.y
        &&& self.pos.y + self.size <= side
    }

    /// Split the block into its four quarters: top left, top right, bottom left,
    /// bottom right.
    pub fn split(self) -> (r: [Block; 4])
        requires
            i32::MIN <= self.pos.x + trunc_div(self.size as int, 2) <= i32::MAX,
            i32::MIN <= self.pos.y + trunc_div(self.size as int, 2) <= i32::MAX,
        ensures
            ({
                let h = trunc_div(self.size as int, 2);
                &&& r[0] == Block { pos: self.pos, size: h as i32 }
                &&& r[1].pos.x == self.pos.x + h && r[1].pos.y == self.pos.y && r[1].size == h
                &&& r[2].pos.x == self.pos.x && r[2].pos.y == self.pos.y + h && r[2].size == h
                &&& r[3].pos.x == self.pos.x + h && r[3].pos.y == self.pos.y + h && r[3].size == h
            }),
    {
        let size = self.size / 2;
        [
            Block { pos: V2i { x: self.pos.x, y: self.pos.y }, size },
            Block { pos: V2i { x: self.pos.x + size, y: self.pos.y }, size },
            Block { pos: V2i { x: self.pos.x, y: self.pos.y + size }, size },
            Block { pos: V2i { x: self.pos.x + size, y: self.pos.y + size }, size },
        ]
    }

    /// The block of twice the side that this block is a quarter of.
    pub fn parent(&self) -> (r: Block)
        requires
            self.size != 0,
            i32::MIN <= 2 * self.size <= i32::MAX,
        ensures
            r.size == 2 * self.size,
            r.pos.x == trunc_div(self.pos.x as int, 2 * self.size) * (2 * self.size),
            r.pos.y == trunc_div(self.pos.y as int, 2 * self.size) * (2 * self.size),
    {
        let size = self.size * 2;
        proof {
            lemma_trunc_div_mul_bound(self.pos.x as int, size as int);
            lemma_trunc_div_mul_bound(self.pos.y as int, size as int);
        }
        let x = div_i32(self.pos.x, size);
        let y = div_i32(self.pos.y, size);
        Block { pos: V2i { x: x * size, y: y * size }, size }
    }
}

/// `a / b` on `i32`.
fn div_i32(a: i32, b: i32) -> (q: i32)
    requires
        b != 0,
        !(a == i32::MIN && b == -1),
    ensures
        q == trunc_div(a as int, b as int),
{
    if b > 0 {
        let q = a / b;
        assert(a >= 0 ==> q == a as int / b as int);
        assert(a < 0 ==> q == -((-a) as int / b as int));
        assert(q == trunc_div(a as int, b as int));
        q
    } else if b == i32::MIN {
        // only `i32::MIN` itself reaches the size of the divisor
        if a == i32::MIN {
            1
        } else {
            proof {
                let n = crate::math::abs(a as int);
                assert(n / 0x8000_0000 == 0) by (nonlinear_arith)
                    requires
                        0 <= n < 0x8000_0000,
                ;
            }
            0
        }
    } else {
        // `a / b == -(a / -b)` as the division rounds toward zero
        let nb = -b;
        let q = a / nb;
        proof {
            let n = crate::math::abs(a as int);
            assert(n / (nb as int) <= n) by (nonlinear_arith)
                requires
                    n >= 0,
                    nb > 0,
            ;
            assert(nb >= 2 ==> n / (nb as int) <= n / 2) by (nonlinear_arith)
                requires
                    n >= 0,
                    nb > 0,
            ;
        }
        assert(a >= 0 ==> q == a as int / nb as int);
        assert(a < 0 ==> q == -((-a) as int / nb as int));
        assert(-q == trunc_div(a as int, b as int));
        -q
    }
}

/// Rounding a division toward zero and multiplying back moves no further from
/// zero than where it started.
proof fn lemma_trunc_div_mul_bound(a: int, b: int)
    requires
        b != 0,
    ensures
        crate::math::abs(trunc_div(a, b) * b) <= crate::math::abs(a),
        a >= 0 ==> trunc_div(a, b) * b >= 0,
        a <= 0 ==> trunc_div(a, b) * b <= 0,
{
    let q = crate::math::abs(a) / crate::math::abs(b);
    assert(q * crate::math::abs(b) <= crate::math::abs(a)) by (nonlinear_arith)
        requires
            q == crate::math::abs(a) / crate::math::abs(b),
            crate::math::abs(b) > 0,
            crate::math::abs(a) >= 0,
    ;
    assert(crate::math::abs(trunc_div(a, b) * b) == q * crate::math::abs(b)) by (nonlinear_arith)
        requires
            q >= 0,
            trunc_div(a, b) == q || trunc_div(a, b) == -q,
            crate::math::abs(b) == b || crate::math::abs(b) == -b,
    ;
    assert(a >= 0 ==> trunc_div(a, b) * b >= 0) by (nonlinear_arith)
        requires
            q >= 0,
            trunc_div(a, b) == (if (a >= 0) == (b > 0) { q } else { -q }),
            b != 0,
    ;
    assert(a <= 0 ==> trunc_div(a, b) * b <= 0) by (nonlinear_arith)
        requires
            q >= 0,
            trunc_div(a, b) == (if (a >= 0) == (b > 0) { q } else { -q }),
            a == 0 ==> q == 0,
            b != 0,
    ;
}

/// Every block of `s` is placed in a square of side `side`.
pub open spec fn all_placed(s: Seq<Block>, side: int) -> bool {
    forall|i: int| 0 <= i < s.len() ==> #[trigger] s[i].placed_in(side)
}

/// No two blocks of `s` share a cell.
pub open spec fn pairwise_disjoint(s: Seq<Block>) -> bool {
    forall|i: int, j: int|
        0 <= i < s.len() && 0 <= j < s.len() && i != j ==> #[trigger] s[i].disjoint(#[trigger] s[j])
}

/// Some block of `s` holds the cell `(x, y)`.
pub open spec fn seq_covers(s: Seq<Block>, x: int, y: int) -> bool {
    exists|i: int| 0 <= i < s.len() && #[trigger] s[i].contains(x, y)
}

/// Block `ix` of `s` is the one that a request for side `need` takes: the
/// smallest block that is large enough, and the first of those.
/// The free list after splitting `b` down to side `need`: each time the top
/// left quarter is kept and the other three quarters are added, in order.
pub open spec fn split_down(s: Seq<Block>, b: Block, need: int) -> Seq<Block>
    decreases b.size,
{
    if b.size <= need || b.size < 2 {
        s
    } else {
        let h = b.size / 2;
        let q1 = Block { pos: V2i { x: (b.pos.x + h) as i32, y: b.pos.y }, size: h as i32 };
        let q2 = Block { pos: V2i { x: b.pos.x, y: (b.pos.y + h) as i32 }, size: h as i32 };
        let q3 = Block { pos: V2i { x: (b.pos.x + h) as i32, y: (b.pos.y + h) as i32 }, size: h as i32 };
        let q0 = Block { pos: b.pos, size: h as i32 };
        split_down(s.push(q1).push(q2).push(q3), q0, need)
    }
}

pub open spec fn chosen(s: Seq<Block>, ix: int, need: int) -> bool {
    &&& 0 <= ix < s.len()
    &&& s[ix].size >= need
    &&& forall|j: int| 0 <= j < s.len() && #[trigger] s[j].size >= need ==> s[ix].size <= s[j].size
    &&& forall|j: int| 0 <= j < ix && #[trigger] s[j].size >= need ==> s[ix].size < s[j].size
}

/// Adding a block that is disjoint from the others.
pub proof fn lemma_push_block(s: Seq<Block>, b: Block, side: int)
    requires
        all_placed(s, side),
        pairwise_disjoint(s),
        b.placed_in(side),
        forall|i: int| 0 <= i < s.len() ==> b.disjoint(#[trigger] s[i]),
    ensures
        all_placed(s.push(b), side),
        pairwise_disjoint(s.push(b)),
        forall|x: int, y: int| #[trigger] seq_covers(s.push(b), x, y) == (seq_covers(s, x, y) || b.contains(x, y)),
{
    let t = s.push(b);
    assert(all_placed(t, side)) by {
        assert forall|i: int| 0 <= i < t.len() implies #[trigger] t[i].placed_in(side) by {
            if i < s.len() {
                assert(t[i] == s[i]);
            }
        }
    }
    assert(pairwise_disjoint(t)) by {
        assert forall|i: int, j: int|
            0 <= i < t.len() && 0 <= j < t.len() && i != j implies #[trigger] t[i].disjoint(#[trigger] t[j]) by {
            if i < s.len() && j < s.len() {
                assert(s[i].disjoint(s[j]));
            } else if i < s.len() {
                assert(b.disjoint(s[i]));
            } else {
                assert(b.disjoint(s[j]));
            }
        }
    }
    assert forall|x: int, y: int| #[trigger] seq_covers(t, x, y) == (seq_covers(s, x, y) || b.contains(x, y)) by {
        if seq_covers(s, x, y) {
            let i = choose|i: int| 0 <= i < s.len() && #[trigger] s[i].contains(x, y);
            assert(t[i].contains(x, y));
        }
        if b.contains(x, y) {
            assert(t[s.len() as int].contains(x, y));
        }
        if seq_covers(t, x, y) {
            let i = choose|i: int| 0 <= i < t.len() && #[trigger] t[i].contains(x, y);
            if i < s.len() {
                assert(s[i].contains(x, y));
            }
        }
    }
}

/// Taking block `i` out the way `Vec::swap_remove` does.
pub proof fn lemma_swap_remove(s: Seq<Block>, i: int, side: int)
    requires
        all_placed(s, side),
        pairwise_disjoint(s),
        0 <= i < s.len(),
    ensures
        all_placed(s.update(i, s.last()).drop_last(), side),
        pairwise_disjoint(s.update(i, s.last()).drop_last()),
        forall|j: int| 0 <= j < s.len() - 1 ==> s[i].disjoint(#[trigger] s.update(i, s.last()).drop_last()[j]),
        forall|j: int| 0 <= j < s.len() - 1 && j != i ==> #[trigger] s.update(i, s.last()).drop_last()[j] == s[j],
        forall|x: int, y: int| #[trigger] seq_covers(s.update(i, s.last()).drop_last(), x, y) == (
        seq_covers(s, x, y) && !s[i].contains(x, y)),
{
    let t = s.update(i, s.last()).drop_last();
    let last = s.len() - 1;
    // the index in s of each entry of t
    assert forall|j: int| 0 <= j < t.len() implies #[trigger] t[j] == s[if j == i { last } else { j }] by {}
    assert(all_placed(t, side)) by {
        assert forall|j: int| 0 <= j < t.len() implies #[trigger] t[j].placed_in(side) by {
            assert(t[j] == s[if j == i { last } else { j }]);
        }
    }
    assert(pairwise_disjoint(t)) by {
        assert forall|a: int, b: int|
            0 <= a < t.len() && 0 <= b < t.len() && a != b implies #[trigger] t[a].disjoint(#[trigger] t[b]) by {
            assert(t[a] == s[if a == i { last } else { a }]);
            assert(t[b] == s[if b == i { last } else { b }]);
        }
    }
    assert forall|j: int| 0 <= j < s.len() - 1 implies s[i].disjoint(#[trigger] t[j]) by {
        assert(t[j] == s[if j == i { last } else { j }]);
    }
    assert forall|x: int, y: int| #[trigger] seq_covers(t, x, y) == (seq_covers(s, x, y) && !s[i].contains(x, y)) by {
        if seq_covers(t, x, y) {
            let j = choose|j: int| 0 <= j < t.len() && #[trigger] t[j].contains(x, y);
            let k = if j == i { last } else { j };
            assert(s[k].contains(x, y));
            assert(s[k].disjoint(s[i]));
        }
        if seq_covers(s, x, y) && !s[i].contains(x, y) {
            let k = choose|k: int| 0 <= k < s.len() && #[trigger] s[k].contains(x, y);
            if k == last {
                assert(t[i].contains(x, y));
            } else {
                assert(t[k].contains(x, y));
            }
        }
    }
}

/// A square of free cells that hands out square blocks, splitting free blocks
/// in four to fit a request and joining four free quarters back together.
pub struct Pack {
    size: i32,
    free: Vec<Block>,
}

impl Pack {
    /// The side of the square.
    pub closed spec fn side(&self) -> int {
        self.size as int
    }

    /// The free blocks, in the order that `alloc` searches them.
    pub closed spec fn blocks(&self) -> Seq<Block> {
        self.free@
    }

    /// The side is a power of two, and the free blocks are placed in the square
    /// and pairwise disjoint.
    pub open spec fn wf(&self) -> bool {
        &&& is_pow2(self.side())
        &&& self.side() <= max_pack_size()
        &&& all_placed(self.blocks(), self.side())
        &&& pairwise_disjoint(self.blocks())
    }

    /// The cell `(x, y)` is free.
    pub open spec fn covers(&self, x: int, y: int) -> bool {
        seq_covers(self.blocks(), x, y)
    }

    /// A pack whose cells are all free. The side must be a power of two, at most
    /// `2^29`.
    pub fn new(size: i32) -> (p: Pack)
        requires
            is_pow2(size as int),
            size <= max_pack_size(),
        ensures
            p.wf(),
            p.side() == size,
            p.blocks() == seq![Block { pos: V2i { x: 0, y: 0 }, size }],
            merged(p.blocks()),
            forall|x: int, y: int| p.covers(x, y) == (0 <= x < size && 0 <= y < size),
    {
        let p = Pack { size, free: vec![Block { pos: V2i { x: 0, y: 0 }, size }] };
        assert forall|x: int, y: int| p.covers(x, y) == (0 <= x < size && 0 <= y < size) by {
            if 0 <= x < size && 0 <= y < size {
                assert(p.blocks()[0].contains(x, y));
            }
        }
        p
    }

    /// Take a block for a rectangle of `size`: the smallest free block that is
    /// large enough (the first of those), split down to the side that
    /// `block_size` gives, its top left quarter each time. The other quarters
    /// stay free. `None` when no free block is large enough.
    pub fn allocate(&mut self, size: V2i) -> (r: Option<Block>)
        requires
            old(self).wf(),
            size.x <= 0x4000_0000,
            size.y <= 0x4000_0000,
        ensures
            final(self).wf(),
            final(self).side() == old(self).side(),
            match r {
                None => {
                    &&& forall|k: int, i: int|
                        #[trigger] fits_size(size, k) && 0 <= i < old(self).blocks().len() ==> #[trigger] old(
                            self,
                        ).blocks()[i].size < k
                    &&& final(self).blocks() == old(self).blocks()
                },
                Some(b) => {
                    &&& fits_size(size, b.size as int)
                    &&& b.placed_in(old(self).side())
                    &&& exists|ix: int|
                        chosen(old(self).blocks(), ix, b.size as int) && old(self).blocks()[ix].pos
                            == b.pos && final(self).blocks() == split_down(
                            old(self).blocks().update(ix, old(self).blocks().last()).drop_last(),
                            old(self).blocks()[ix],
                            b.size as int,
                        )
                    &&& forall|x: int, y: int| b.contains(x, y) ==> old(self).covers(x, y)
                    &&& forall|x: int, y: int| #[trigger] final(self).covers(x, y) == (old(self).covers(x, y)
                        && !b.contains(x, y))
                },
            },
            merged(old(self).blocks()) ==> merged(final(self).blocks()),
    {
        let ghost o = self.free@;
        let need = block_size(size);
        let n = self.free.len();
        // the first of the smallest blocks that are large enough
        let mut best: usize = n;
        let mut i: usize = 0;
        while i < n
            invariant
                i <= n,
                n == self.free@.len(),
                self.free@ == o,
                best == n || (best < i && chosen(o.take(i as int), best as int, need as int)),
                best == n ==> forall|j: int| 0 <= j < i ==> #[trigger] o[j].size < need,
            decreases n - i,
        {
            if self.free[i].size >= need && (best == n || self.free[i].size < self.free[best].size) {
                best = i;
            }
            i = i + 1;
            proof {
                if best < n {
                    assert forall|j: int| 0 <= j < i && #[trigger] o.take(i as int)[j].size >= need implies o.take(i as int)[best as int].size <= o.take(i as int)[j].size by {
                        assert(o.take(i as int)[j] == o[j]);
                        if j < i - 1 && best != i - 1 {
                            assert(o.take(i - 1)[j] == o[j]);
                        }
                    }
                    assert forall|j: int| 0 <= j < best && #[trigger] o.take(i as int)[j].size >= need implies o.take(i as int)[best as int].size < o.take(i as int)[j].size by {
                        assert(o.take(i as int)[j] == o[j]);
                        if best != i - 1 {
                            assert(o.take(i - 1)[j] == o[j]);
                        }
                    }
                }
            }
        }
        if best == n {
            proof {
                assert forall|k: int, j: int| #[trigger] fits_size(size, k) && 0 <= j < o.len() implies #[trigger] o[j].size < k by {
                    assert(o[j].size < need);
                    if k != need {
                        if k < need {
                            lemma_pow2_lt(k, need as int);
                        } else {
                            lemma_pow2_lt(need as int, k);
                        }
                    }
                }
            }
            return None;
        }
        proof {
            assert(o.take(n as int) =~= o);
            lemma_swap_remove(o, best as int, self.size as int);
        }
        let c = self.free.swap_remove(best);
        let mut block = c;
        proof {
            assert(self.free@ == o.update(best as int, o.last()).drop_last());
            assert forall|x: int, y: int| #![trigger seq_covers(self.free@, x, y)] #![trigger block.contains(x, y)] #![trigger seq_covers(o, x, y)] (seq_covers(self.free@, x, y) || block.contains(x, y)) == seq_covers(o, x, y) by {
                if block.contains(x, y) {
                    assert(o[best as int].contains(x, y));
                }
            }
        }
        while block.size > need
            invariant
                self.wf(),
                self.size == old(self).size,
                old(self).blocks() == o,
                is_pow2(need as int),
                block.placed_in(self.size as int),
                block.pos == c.pos,
                block.size >= need,
                split_down(self.free@, block, need as int) == split_down(
                    o.update(best as int, o.last()).drop_last(),
                    o[best as int],
                    need as int,
                ),
                forall|i: int| 0 <= i < self.free@.len() ==> block.disjoint(#[trigger] self.free@[i]),
                forall|x: int, y: int| #![trigger seq_covers(self.free@, x, y)] #![trigger block.contains(x, y)] #![trigger seq_covers(o, x, y)] (seq_covers(self.free@, x, y) || block.contains(x, y)) == seq_covers(o, x, y),
                forall|x: int, y: int| #[trigger] seq_covers(self.free@, x, y) ==> !block.contains(x, y),
            decreases block.size,
        {
            proof {
                lemma_pow2_half(block.size as int);
                lemma_align_half(block.pos.x as int, block.size / 2);
                lemma_align_half(block.pos.y as int, block.size / 2);
                if block.size / 2 < need {
                    lemma_pow2_lt(block.size / 2, need as int);
                }
            }
            let parts = block.split();
            let ghost f0 = self.free@;
            let ghost big = block;
            assert forall|x: int, y: int| (#[trigger] seq_covers(f0, x, y) || big.contains(x, y)) == seq_covers(o, x, y) by {
                assert((seq_covers(self.free@, x, y) || block.contains(x, y)) == seq_covers(o, x, y));
            }
            block = parts[0];
            proof {
                let h = big.size / 2;
                assert(trunc_div(big.size as int, 2) == h);
                assert(parts[1] == Block { pos: V2i { x: (big.pos.x + h) as i32, y: big.pos.y }, size: h as i32 });
                assert(parts[2] == Block { pos: V2i { x: big.pos.x, y: (big.pos.y + h) as i32 }, size: h as i32 });
                assert(parts[3] == Block { pos: V2i { x: (big.pos.x + h) as i32, y: (big.pos.y + h) as i32 }, size: h as i32 });
                assert(parts[0] == Block { pos: big.pos, size: h as i32 });
                assert(split_down(f0, big, need as int) == split_down(
                    f0.push(parts[1]).push(parts[2]).push(parts[3]),
                    parts[0],
                    need as int,
                ));
                lemma_push_block(f0, parts[1], self.size as int);
                lemma_push_block(f0.push(parts[1]), parts[2], self.size as int);
                lemma_push_block(f0.push(parts[1]).push(parts[2]), parts[3], self.size as int);
            }
            self.free.push(parts[1]);
            self.free.push(parts[2]);
            self.free.push(parts[3]);
            proof {
                assert(self.free@ == f0.push(parts[1]).push(parts[2]).push(parts[3]));
                assert forall|i: int| 0 <= i < self.free@.len() implies block.disjoint(#[trigger] self.free@[i]) by {
                    if i < f0.len() {
                        assert(big.disjoint(f0[i]));
                    }
                }
                assert(trunc_div(big.size as int, 2) == big.size / 2);
                assert forall|x: int, y: int| #![trigger seq_covers(self.free@, x, y)] #![trigger block.contains(x, y)] #![trigger seq_covers(o, x, y)] (seq_covers(self.free@, x, y) || block.contains(x, y)) == seq_covers(o, x, y) by {
                    assert(seq_covers(self.free@, x, y) == (seq_covers(f0, x, y) || parts[1].contains(x, y) || parts[2].contains(x, y) || parts[3].contains(x, y)));
                    assert(big.contains(x, y) == (parts[0].contains(x, y) || parts[1].contains(x, y) || parts[2].contains(x, y) || parts[3].contains(x, y)));
                }
                assert forall|x: int, y: int| #[trigger] seq_covers(self.free@, x, y) implies !block.contains(x, y) by {
                    if seq_covers(f0, x, y) {
                        let j = choose|j: int| 0 <= j < f0.len() && #[trigger] f0[j].contains(x, y);
                        assert(big.disjoint(f0[j]));
                    }
                }
            }
        }
        proof {
            if block.size != need {
                lemma_pow2_lt(need as int, block.size as int);
            }
            assert(chosen(o, best as int, block.size as int));
            assert(o[best as int].pos == block.pos);
            assert(split_down(self.free@, block, need as int) == self.free@);
            assert(fits_size(size, block.size as int));
            assert(block.placed_in(old(self).side()));
            assert forall|x: int, y: int| block.contains(x, y) implies old(self).covers(x, y) by {
                assert((seq_covers(self.free@, x, y) || block.contains(x, y)) == seq_covers(o, x, y));
            }
            assert forall|x: int, y: int| #[trigger] seq_covers(self.free@, x, y) == (seq_covers(o, x, y) && !block.contains(x, y)) by {}
            if merged(o) {
                let t = swap_removed(o, best as int);
                lemma_merged_swap_remove(o, best as int);
                assert(o[best as int].placed_in(old(self).side()));
                lemma_pow2_lt_or_eq(o[best as int].size as int, old(self).side());
                assert forall|j: int| 0 <= j < t.len() implies (#[trigger] t[j]).size > 0 by {
                    assert(t[j].placed_in(old(self).side()));
                    lemma_pow2_lt_or_eq(t[j].size as int, old(self).side());
                }
                assert forall|j: int| 0 <= j < t.len() implies o[best as int].disjoint(#[trigger] t[j]) by {
                    assert(o[best as int].disjoint(o.update(best as int, o.last()).drop_last()[j]));
                }
                lemma_split_merged(t, o[best as int], need as int);
            }
        }
        Some(block)
    }

    /// Give a block back. When the other three quarters of its parent are free
    /// as well, they are taken out of the free list and the parent is given back
    /// in their place; otherwise the block is added to the free list.
    pub fn free(&mut self, block: Block)
        requires
            old(self).wf(),
            block.placed_in(old(self).side()),
            forall|x: int, y: int| block.contains(x, y) ==> !old(self).covers(x, y),
        ensures
            final(self).wf(),
            final(self).side() == old(self).side(),
            forall|x: int, y: int| #[trigger] final(self).covers(x, y) == (old(self).covers(x, y) || block.contains(x, y)),
            final(self).blocks() == freed_list(old(self).blocks(), block),
            merged(old(self).blocks()) ==> merged(final(self).blocks()),
        decreases old(self).blocks().len(),
    {
        let ghost o = self.free@;
        let ghost side = self.size as int;
        proof {
            assert forall|i: int| 0 <= i < o.len() implies block.disjoint(#[trigger] o[i]) by {
                assert(o[i].placed_in(side));
                if !block.disjoint(o[i]) {
                    lemma_common_cell(block, o[i]);
                    let cx = if block.pos.x < o[i].pos.x { o[i].pos.x as int } else { block.pos.x as int };
                    let cy = if block.pos.y < o[i].pos.y { o[i].pos.y as int } else { block.pos.y as int };
                    assert(seq_covers(o, cx, cy));
                }
            }
            lemma_pow2_lt_or_eq(block.size as int, side);
        }
        let bp = block.parent();
        let n = self.free.len();
        let mut sibs: Vec<usize> = Vec::new();
        let mut i: usize = 0;
        while i < n
            invariant
                i <= n,
                n == self.free@.len(),
                self.free@ == o,
                all_placed(o, side),
                side <= max_pack_size(),
                forall|a: int, b: int| 0 <= a < b < sibs@.len() ==> sibs@[a] < sibs@[b],
                forall|a: int| 0 <= a < sibs@.len() ==> #[trigger] sibs@[a] < i,
                forall|a: int| 0 <= a < sibs@.len() ==> is_sibling(#[trigger] o[sibs@[a] as int], bp),
                sibs@.map_values(|u: usize| u as int) == sibling_positions(o.take(i as int), bp),
            decreases n - i,
        {
            proof {
                assert(o[i as int].placed_in(side));
                lemma_pow2_lt_or_eq(o[i as int].size as int, side);
            }
            proof {
                assert(o.take(i + 1).drop_last() =~= o.take(i as int));
                assert(o.take(i + 1).last() == o[i as int]);
            }
            let ghost before = sibs@;
            if self.free[i].parent() == bp {
                sibs.push(i);
                proof {
                    assert(sibs@.map_values(|u: usize| u as int) =~= before.map_values(|u: usize| u as int).push(
                        i as int,
                    ));
                }
            }
            i = i + 1;
        }
        proof {
            assert(o.take(n as int) =~= o);
            lemma_sibling_positions(o, bp);
            assert(bp == parent_block(block));
            assert(sibs@.len() == sibling_positions(o, bp).len());
            if sibs@.len() == 3 {
                assert(sibs@[0] as int == sibling_positions(o, bp)[0]);
                assert(sibs@[1] as int == sibling_positions(o, bp)[1]);
                assert(sibs@[2] as int == sibling_positions(o, bp)[2]);
            }
        }
        if sibs.len() == 3 {
            let i1 = sibs[0];
            let i2 = sibs[1];
            let i3 = sibs[2];
            let ghost s1 = o[i1 as int];
            let ghost s2 = o[i2 as int];
            let ghost s3 = o[i3 as int];
            proof {
                assert(s1.placed_in(side) && s2.placed_in(side) && s3.placed_in(side));
                lemma_quadrant(block, bp);
                lemma_quadrant(s1, bp);
                lemma_quadrant(s2, bp);
                lemma_quadrant(s3, bp);
                assert(s1.disjoint(s2) && s1.disjoint(s3) && s2.disjoint(s3));
                assert(block.disjoint(s1) && block.disjoint(s2) && block.disjoint(s3));
                lemma_pow2_double(block.size as int);
                lemma_swap_remove(o, i3 as int, side);
            }
            let ghost m1 = o.update(i3 as int, o.last()).drop_last();
            self.free.swap_remove(i3);
            proof {
                assert(self.free@ == m1);
                assert(m1[i2 as int] == s2 && m1[i1 as int] == s1);
                lemma_swap_remove(m1, i2 as int, side);
            }
            let ghost m2 = m1.update(i2 as int, m1.last()).drop_last();
            self.free.swap_remove(i2);
            proof {
                assert(self.free@ == m2);
                assert(m2[i1 as int] == s1);
                lemma_swap_remove(m2, i1 as int, side);
            }
            self.free.swap_remove(i1);
            let ghost mid = self.free@;
            proof {
                assert(forall|x: int, y: int| #[trigger] seq_covers(mid, x, y) == (seq_covers(o, x, y) && !s1.contains(x, y) && !s2.contains(x, y) && !s3.contains(x, y)));
                assert forall|x: int, y: int| bp.contains(x, y) implies !self.covers(x, y) by {
                    lemma_quadrants_cover(block, s1, s2, s3, bp, x, y);
                    if block.contains(x, y) {
                        assert(!seq_covers(o, x, y));
                    }
                }
                assert(bp.placed_in(side)) by {
                    lemma_quadrants_inside(block, s1, s2, s3, bp, side);
                }
            }
            self.free(bp);
            proof {
                assert forall|x: int, y: int| #[trigger] self.covers(x, y) == (seq_covers(o, x, y) || block.contains(x, y)) by {
                    assert(seq_covers(mid, x, y) == (seq_covers(o, x, y) && !s1.contains(x, y) && !s2.contains(x, y) && !s3.contains(x, y)));
                    if bp.contains(x, y) {
                        lemma_quadrants_cover(block, s1, s2, s3, bp, x, y);
                    }
                    if s1.contains(x, y) || s2.contains(x, y) || s3.contains(x, y) {
                        lemma_quadrant_inside(s1, bp, x, y);
                        lemma_quadrant_inside(s2, bp, x, y);
                        lemma_quadrant_inside(s3, bp, x, y);
                        assert(i1 < o.len() && o[i1 as int] == s1);
                    }
                    if block.contains(x, y) {
                        lemma_quadrant_inside(block, bp, x, y);
                    }
                }
            }
        } else {
            proof {
                lemma_push_block(o, block, side);
            }
            self.free.push(block);
        }
        proof {
            if merged(o) {
                lemma_freed_merged(o, block, side);
            }
        }
    }
}

/// The side of the smallest block that holds a rectangle of `size`: the
/// least power of two that is at least both sides.
pub open spec fn fits_size(size: V2i, r: int) -> bool {
    &&& is_pow2(r)
    &&& r >= size.x
    &&& r >= size.y
    &&& (r == 1 || r / 2 < size.x || r / 2 < size.y)
}

/// The side of the smallest block that holds a rectangle of `size`.
pub fn block_size(size: V2i) -> (r: i32)
    requires
        size.x <= 0x4000_0000,
        size.y <= 0x4000_0000,
    ensures
        fits_size(size, r as int),
        r <= 0x4000_0000,
{
    let mut block_size: i32 = 1;
    while block_size < size.x || block_size < size.y
        invariant
            is_pow2(block_size as int),
            1 <= block_size <= 0x4000_0000,
            size.x <= 0x4000_0000,
            size.y <= 0x4000_0000,
            block_size == 1 || block_size / 2 < size.x || block_size / 2 < size.y,
        decreases 0x4000_0000 - block_size,
    {
        proof {
            lemma_pow2_large();
            lemma_pow2_lt(block_size as int, 0x4000_0000);
            lemma_pow2_double(block_size as int);
        }
        block_size = block_size * 2;
    }
    block_size
}

/// `2^30` and `2^29` are powers of two.
pub proof fn lemma_pow2_large()
    ensures
        is_pow2(0x4000_0000),
        is_pow2(0x2000_0000),
{
    reveal_with_fuel(is_pow2, 32);
}

/// `b` is a quarter of `p`: its parent, as `Block::parent` computes it, is `p`.
/// The block twice as large that `b` is a quarter of, as `Block::parent`
/// computes it.
pub open spec fn parent_block(b: Block) -> Block {
    Block {
        pos: V2i {
            x: (trunc_div(b.pos.x as int, 2 * b.size) * (2 * b.size)) as i32,
            y: (trunc_div(b.pos.y as int, 2 * b.size) * (2 * b.size)) as i32,
        },
        size: (2 * b.size) as i32,
    }
}

/// The positions in `s`, in increasing order, of the quarters of `p`.
pub open spec fn sibling_positions(s: Seq<Block>, p: Block) -> Seq<int>
    decreases s.len(),
{
    if s.len() == 0 {
        Seq::empty()
    } else {
        let r = sibling_positions(s.drop_last(), p);
        if is_sibling(s.last(), p) {
            r.push(s.len() - 1)
        } else {
            r
        }
    }
}

/// `s` after `Vec::swap_remove(i)`: the last entry takes the place of entry `i`.
pub open spec fn swap_removed(s: Seq<Block>, i: int) -> Seq<Block> {
    s.update(i, s.last()).drop_last()
}

/// The free list after `free(b)`: when exactly three quarters of `b`'s parent
/// are free they are taken out (the last first) and the parent is freed in
/// turn; otherwise `b` is added at the end.
pub open spec fn freed_list(s: Seq<Block>, b: Block) -> Seq<Block>
    decreases s.len(),
{
    let p = parent_block(b);
    let sib = sibling_positions(s, p);
    if sib.len() == 3 && 0 <= sib[0] < sib[1] < sib[2] < s.len() {
        freed_list(swap_removed(swap_removed(swap_removed(s, sib[2]), sib[1]), sib[0]), p)
    } else {
        s.push(b)
    }
}

/// `b` is one of the four quarters of `p`: half its side, at one of its
/// four corners.
pub open spec fn quarter_of(b: Block, p: Block) -> bool {
    &&& 2 * b.size == p.size
    &&& (b.pos.x == p.pos.x || b.pos.x == p.pos.x + b.size)
    &&& (b.pos.y == p.pos.y || b.pos.y == p.pos.y + b.size)
}

/// `p` could be a block of a pack: a positive side, no negative
/// coordinate, and aligned to its side.
pub open spec fn aligned(p: Block) -> bool {
    &&& p.size > 0
    &&& p.pos.x >= 0
    &&& p.pos.y >= 0
    &&& p.pos.x % p.size == 0
    &&& p.pos.y % p.size == 0
}

/// No four entries of `s` are quarters of one aligned block: a free list in
/// which four free quarters are always joined into their parent.
pub open spec fn merged(s: Seq<Block>) -> bool {
    forall|p: Block, i: int, j: int, k: int, l: int|
        #![trigger quarter_of(s[i], p), quarter_of(s[j], p), quarter_of(s[k], p), quarter_of(s[l], p)]
        aligned(p) && 0 <= i < s.len() && 0 <= j < s.len() && 0 <= k < s.len() && 0 <= l < s.len() && i != j
            && i != k && i != l && j != k && j != l && k != l ==> !(quarter_of(s[i], p) && quarter_of(s[j], p)
            && quarter_of(s[k], p) && quarter_of(s[l], p))
}

/// A coordinate at one of the two quarter corners of an aligned parent
/// rounds down to the parent's corner.
proof fn lemma_div_of_quarter(x: int, px: int, h: int)
    requires
        h > 0,
        px >= 0,
        px % (2 * h) == 0,
        x == px || x == px + h,
    ensures
        trunc_div(x, 2 * h) * (2 * h) == px,
{
    let q = px / (2 * h);
    assert(px == q * (2 * h) && q >= 0) by (nonlinear_arith)
        requires
            h > 0,
            px >= 0,
            px % (2 * h) == 0,
            q == px / (2 * h),
    ;
    assert(x / (2 * h) == q) by (nonlinear_arith)
        requires
            h > 0,
            q >= 0,
            px == q * (2 * h),
            x == px || x == px + h,
    ;
    assert(trunc_div(x, 2 * h) == x / (2 * h));
}

/// A quarter of an aligned block is one of its siblings, in the sense of
/// `Block::parent`.
proof fn lemma_quarter_is_sibling(b: Block, p: Block)
    requires
        aligned(p),
        quarter_of(b, p),
        b.size > 0,
    ensures
        is_sibling(b, p),
{
    lemma_div_of_quarter(b.pos.x as int, p.pos.x as int, b.size as int);
    lemma_div_of_quarter(b.pos.y as int, p.pos.y as int, b.size as int);
}

/// Every entry of `s` that is a quarter of `p` is among the positions of the
/// quarters.
proof fn lemma_sibling_positions_complete(s: Seq<Block>, p: Block, j: int)
    requires
        0 <= j < s.len(),
        is_sibling(s[j], p),
    ensures
        sibling_positions(s, p).contains(j),
    decreases s.len(),
{
    let t = s.drop_last();
    let r = sibling_positions(t, p);
    if j == s.len() - 1 {
        assert(sibling_positions(s, p) == r.push(j));
        assert(sibling_positions(s, p)[r.len() as int] == j);
    } else {
        assert(t[j] == s[j]);
        lemma_sibling_positions_complete(t, p, j);
        let a = choose|a: int| 0 <= a < r.len() && r[a] == j;
        if is_sibling(s.last(), p) {
            assert(sibling_positions(s, p) == r.push(s.len() - 1));
            assert(sibling_positions(s, p)[a] == j);
        }
    }
}

/// Taking an entry out keeps four free quarters from standing side by side.
proof fn lemma_merged_swap_remove(s: Seq<Block>, i: int)
    requires
        merged(s),
        0 <= i < s.len(),
    ensures
        merged(swap_removed(s, i)),
{
    let t = swap_removed(s, i);
    let last = s.len() - 1;
    assert forall|p: Block, a: int, b: int, c: int, d: int|
        aligned(p) && 0 <= a < t.len() && 0 <= b < t.len() && 0 <= c < t.len() && 0 <= d < t.len() && a != b
            && a != c && a != d && b != c && b != d && c != d implies !(#[trigger] quarter_of(t[a], p)
        && #[trigger] quarter_of(t[b], p) && #[trigger] quarter_of(t[c], p) && #[trigger] quarter_of(t[d], p)) by {
        let ia = if a == i { last } else { a };
        let ib = if b == i { last } else { b };
        let ic = if c == i { last } else { c };
        let id = if d == i { last } else { d };
        assert(t[a] == s[ia] && t[b] == s[ib] && t[c] == s[ic] && t[d] == s[id]);
        assert(!(quarter_of(s[ia], p) && quarter_of(s[ib], p) && quarter_of(s[ic], p) && quarter_of(s[id], p)));
    }
}

/// When a new block `b` and three entries of `s` are quarters of one
/// aligned block, exactly three entries of `s` are quarters of `b`'s parent.
proof fn lemma_three_free_quarters(s: Seq<Block>, b: Block, side: int, q: Block, i: int, j: int, k: int)
    requires
        all_placed(s, side),
        pairwise_disjoint(s),
        merged(s),
        b.placed_in(side),
        aligned(q),
        quarter_of(b, q),
        0 <= i < s.len(),
        0 <= j < s.len(),
        0 <= k < s.len(),
        i != j && i != k && j != k,
        quarter_of(s[i], q),
        quarter_of(s[j], q),
        quarter_of(s[k], q),
    ensures
        sibling_positions(s, parent_block(b)).len() == 3,
{
    let p = parent_block(b);
    let sib = sibling_positions(s, p);
    lemma_sibling_positions(s, p);
    lemma_pow2_lt_or_eq(b.size as int, side);
    lemma_quarter_is_sibling(b, q);
    assert(q.size == p.size);
    assert(q.pos.x == p.pos.x && q.pos.y == p.pos.y);
    assert(q == p);
    assert(s[i].placed_in(side) && s[j].placed_in(side) && s[k].placed_in(side));
    lemma_pow2_lt_or_eq(s[i].size as int, side);
    lemma_pow2_lt_or_eq(s[j].size as int, side);
    lemma_pow2_lt_or_eq(s[k].size as int, side);
    lemma_quarter_is_sibling(s[i], q);
    lemma_quarter_is_sibling(s[j], q);
    lemma_quarter_is_sibling(s[k], q);
    lemma_sibling_positions_complete(s, p, i);
    lemma_sibling_positions_complete(s, p, j);
    lemma_sibling_positions_complete(s, p, k);
    let ai = choose|a: int| 0 <= a < sib.len() && sib[a] == i;
    let aj = choose|a: int| 0 <= a < sib.len() && sib[a] == j;
    let ak = choose|a: int| 0 <= a < sib.len() && sib[a] == k;
    assert(ai != aj && ai != ak && aj != ak);
    if sib.len() > 3 {
        let (n0, n1, n2, n3) = (sib[0], sib[1], sib[2], sib[3]);
        assert(0 <= n0 < n1 && n1 < n2 && n2 < n3 && n3 < s.len());
        assert(s[n0].placed_in(side) && s[n1].placed_in(side) && s[n2].placed_in(side) && s[n3].placed_in(side));
        lemma_pow2_lt_or_eq(s[n0].size as int, side);
        lemma_pow2_lt_or_eq(s[n1].size as int, side);
        lemma_pow2_lt_or_eq(s[n2].size as int, side);
        lemma_pow2_lt_or_eq(s[n3].size as int, side);
        lemma_quadrant(s[n0], p);
        lemma_quadrant(s[n1], p);
        lemma_quadrant(s[n2], p);
        lemma_quadrant(s[n3], p);
        assert(aligned(p));
        assert(!(quarter_of(s[n0], p) && quarter_of(s[n1], p) && quarter_of(s[n2], p) && quarter_of(s[n3], p)));
    }
}

/// A block is a quarter of only one aligned block.
proof fn lemma_one_parent(b: Block, p: Block, q: Block)
    requires
        b.size > 0,
        aligned(p),
        aligned(q),
        quarter_of(b, p),
        quarter_of(b, q),
    ensures
        p == q,
{
    lemma_quarter_is_sibling(b, p);
    lemma_quarter_is_sibling(b, q);
    assert(p.pos == q.pos);
}

/// A block that shares no cell with `p` is no quarter of it.
proof fn lemma_disjoint_not_quarter(e: Block, p: Block)
    requires
        e.size > 0,
        p.disjoint(e),
    ensures
        !quarter_of(e, p),
{
}

/// Splitting a free block never leaves four free quarters of one block side
/// by side: the three quarters that `split_down` adds are the only free
/// quarters of the block split, whose fourth quarter goes on being split or is
/// handed out.
proof fn lemma_split_merged(t: Seq<Block>, b: Block, need: int)
    requires
        merged(t),
        aligned(b),
        is_pow2(b.size as int),
        b.pos.x + b.size <= max_pack_size(),
        b.pos.y + b.size <= max_pack_size(),
        forall|j: int| 0 <= j < t.len() ==> (#[trigger] t[j]).size > 0,
        forall|j: int| 0 <= j < t.len() ==> b.disjoint(#[trigger] t[j]),
    ensures
        merged(split_down(t, b, need)),
    decreases b.size,
{
    if !(b.size <= need || b.size < 2) {
        let h = b.size / 2;
        lemma_pow2_half(b.size as int);
        lemma_align_half(b.pos.x as int, h as int);
        lemma_align_half(b.pos.y as int, h as int);
        let q1 = Block { pos: V2i { x: (b.pos.x + h) as i32, y: b.pos.y }, size: h as i32 };
        let q2 = Block { pos: V2i { x: b.pos.x, y: (b.pos.y + h) as i32 }, size: h as i32 };
        let q3 = Block { pos: V2i { x: (b.pos.x + h) as i32, y: (b.pos.y + h) as i32 }, size: h as i32 };
        let q0 = Block { pos: b.pos, size: h as i32 };
        let u = t.push(q1).push(q2).push(q3);
        let n = t.len() as int;
        assert(u[n] == q1 && u[n + 1] == q2 && u[n + 2] == q3);
        assert forall|j: int| 0 <= j < n implies u[j] == t[j] by {}
        assert(quarter_of(q1, b) && quarter_of(q2, b) && quarter_of(q3, b));
        assert forall|p: Block, i: int, j: int, k: int, l: int|
            aligned(p) && 0 <= i < u.len() && 0 <= j < u.len() && 0 <= k < u.len() && 0 <= l < u.len() && i != j
                && i != k && i != l && j != k && j != l && k != l implies !(#[trigger] quarter_of(u[i], p)
            && #[trigger] quarter_of(u[j], p) && #[trigger] quarter_of(u[k], p) && #[trigger] quarter_of(u[l], p)) by {
            if quarter_of(u[i], p) && quarter_of(u[j], p) && quarter_of(u[k], p) && quarter_of(u[l], p) {
                if i < n && j < n && k < n && l < n {
                    assert(!(quarter_of(t[i], p) && quarter_of(t[j], p) && quarter_of(t[k], p) && quarter_of(t[l], p)));
                } else {
                    let x = if i >= n { i } else if j >= n { j } else if k >= n { k } else { l };
                    assert(quarter_of(u[x], b));
                    lemma_one_parent(u[x], p, b);
                    if i < n {
                        lemma_disjoint_not_quarter(t[i], b);
                    }
                    if j < n {
                        lemma_disjoint_not_quarter(t[j], b);
                    }
                    if k < n {
                        lemma_disjoint_not_quarter(t[k], b);
                    }
                    if l < n {
                        lemma_disjoint_not_quarter(t[l], b);
                    }
                }
            }
        }
        assert forall|j: int| 0 <= j < u.len() implies q0.disjoint(#[trigger] u[j]) by {
            if j < n {
                assert(b.disjoint(t[j]));
            }
        }
        assert forall|j: int| 0 <= j < u.len() implies (#[trigger] u[j]).size > 0 by {}
        lemma_split_merged(u, q0, need);
    }
}

/// Giving back a block never leaves four free quarters of one block side by
/// side in the free list: where its three siblings are free, `freed_list`
/// joins them, and so on up.
proof fn lemma_freed_merged(s: Seq<Block>, b: Block, side: int)
    requires
        is_pow2(side),
        side <= max_pack_size(),
        all_placed(s, side),
        pairwise_disjoint(s),
        merged(s),
        b.placed_in(side),
        forall|x: int, y: int| b.contains(x, y) ==> !seq_covers(s, x, y),
    ensures
        merged(freed_list(s, b)),
    decreases s.len(),
{
    let p = parent_block(b);
    let sib = sibling_positions(s, p);
    lemma_sibling_positions(s, p);
    lemma_pow2_lt_or_eq(b.size as int, side);
    assert forall|i: int| 0 <= i < s.len() implies b.disjoint(#[trigger] s[i]) by {
        assert(s[i].placed_in(side));
        lemma_pow2_lt_or_eq(s[i].size as int, side);
        if !b.disjoint(s[i]) {
            lemma_common_cell(b, s[i]);
            let cx = if b.pos.x < s[i].pos.x { s[i].pos.x as int } else { b.pos.x as int };
            let cy = if b.pos.y < s[i].pos.y { s[i].pos.y as int } else { b.pos.y as int };
            assert(seq_covers(s, cx, cy));
        }
    }
    if sib.len() == 3 && 0 <= sib[0] < sib[1] < sib[2] < s.len() {
        let i1 = sib[0];
        let i2 = sib[1];
        let i3 = sib[2];
        let s1 = s[i1];
        let s2 = s[i2];
        let s3 = s[i3];
        lemma_trunc_div_mul_bound(b.pos.x as int, 2 * b.size);
        lemma_trunc_div_mul_bound(b.pos.y as int, 2 * b.size);
        lemma_parent_pos(b.pos.x as int, b.size as int);
        lemma_parent_pos(b.pos.y as int, b.size as int);
        assert(is_sibling(b, p));
        assert(s1.placed_in(side) && s2.placed_in(side) && s3.placed_in(side));
        lemma_pow2_lt_or_eq(s1.size as int, side);
        lemma_pow2_lt_or_eq(s2.size as int, side);
        lemma_pow2_lt_or_eq(s3.size as int, side);
        lemma_quadrant(b, p);
        lemma_quadrant(s1, p);
        lemma_quadrant(s2, p);
        lemma_quadrant(s3, p);
        assert(s1.disjoint(s2) && s1.disjoint(s3) && s2.disjoint(s3));
        assert(b.disjoint(s1) && b.disjoint(s2) && b.disjoint(s3));
        lemma_pow2_double(b.size as int);
        lemma_swap_remove(s, i3, side);
        lemma_merged_swap_remove(s, i3);
        let m1 = swap_removed(s, i3);
        assert(m1[i2] == s2 && m1[i1] == s1);
        lemma_swap_remove(m1, i2, side);
        lemma_merged_swap_remove(m1, i2);
        let m2 = swap_removed(m1, i2);
        assert(m2[i1] == s1);
        lemma_swap_remove(m2, i1, side);
        lemma_merged_swap_remove(m2, i1);
        let mid = swap_removed(m2, i1);
        assert forall|x: int, y: int| #[trigger] seq_covers(mid, x, y) == (seq_covers(s, x, y) && !s1.contains(x, y)
            && !s2.contains(x, y) && !s3.contains(x, y)) by {
            assert(seq_covers(mid, x, y) == (seq_covers(m2, x, y) && !s1.contains(x, y)));
            assert(seq_covers(m2, x, y) == (seq_covers(m1, x, y) && !s2.contains(x, y)));
            assert(seq_covers(m1, x, y) == (seq_covers(s, x, y) && !s3.contains(x, y)));
        }
        assert forall|x: int, y: int| p.contains(x, y) implies !seq_covers(mid, x, y) by {
            lemma_quadrants_cover(b, s1, s2, s3, p, x, y);
        }
        lemma_quadrants_inside(b, s1, s2, s3, p, side);
        lemma_freed_merged(mid, p, side);
    } else {
        let t = s.push(b);
        let n = s.len() as int;
        assert(freed_list(s, b) == t);
        assert forall|q: Block, i: int, j: int, k: int, l: int|
            aligned(q) && 0 <= i < t.len() && 0 <= j < t.len() && 0 <= k < t.len() && 0 <= l < t.len() && i != j
                && i != k && i != l && j != k && j != l && k != l implies !(#[trigger] quarter_of(t[i], q)
            && #[trigger] quarter_of(t[j], q) && #[trigger] quarter_of(t[k], q) && #[trigger] quarter_of(t[l], q)) by {
            if quarter_of(t[i], q) && quarter_of(t[j], q) && quarter_of(t[k], q) && quarter_of(t[l], q) {
                if i == n {
                    assert(t[j] == s[j] && t[k] == s[k] && t[l] == s[l]);
                    lemma_three_free_quarters(s, b, side, q, j, k, l);
                } else if j == n {
                    assert(t[i] == s[i] && t[k] == s[k] && t[l] == s[l]);
                    lemma_three_free_quarters(s, b, side, q, i, k, l);
                } else if k == n {
                    assert(t[i] == s[i] && t[j] == s[j] && t[l] == s[l]);
                    lemma_three_free_quarters(s, b, side, q, i, j, l);
                } else if l == n {
                    assert(t[i] == s[i] && t[j] == s[j] && t[k] == s[k]);
                    lemma_three_free_quarters(s, b, side, q, i, j, k);
                } else {
                    assert(t[i] == s[i] && t[j] == s[j] && t[k] == s[k] && t[l] == s[l]);
                    assert(!(quarter_of(s[i], q) && quarter_of(s[j], q) && quarter_of(s[k], q) && quarter_of(s[l], q)));
                }
            }
        }
    }
}

/// The positions of the quarters are in increasing order, inside `s`, and
/// hold quarters of `p`; every quarter of `p` in `s` is among them.
proof fn lemma_sibling_positions(s: Seq<Block>, p: Block)
    ensures
        forall|a: int, b: int|
            0 <= a < b < sibling_positions(s, p).len() ==> sibling_positions(s, p)[a] < sibling_positions(
                s,
                p,
            )[b],
        forall|a: int|
            0 <= a < sibling_positions(s, p).len() ==> 0 <= #[trigger] sibling_positions(s, p)[a] < s.len()
                && is_sibling(s[sibling_positions(s, p)[a]], p),
    decreases s.len(),
{
    if s.len() > 0 {
        let t = s.drop_last();
        lemma_sibling_positions(t, p);
        let r = sibling_positions(t, p);
        assert forall|a: int| 0 <= a < r.len() implies 0 <= #[trigger] r[a] < t.len() && s[r[a]] == t[r[a]] by {}
        if is_sibling(s.last(), p) {
            assert(sibling_positions(s, p) == r.push(s.len() - 1));
            assert forall|a: int, b: int|
                0 <= a < b < sibling_positions(s, p).len() implies sibling_positions(s, p)[a] < sibling_positions(
                s,
                p,
            )[b] by {
                if b == r.len() {
                    assert(r[a] < t.len());
                } else {
                    assert(r[a] < r[b]);
                }
            }
            assert forall|a: int| 0 <= a < sibling_positions(s, p).len() implies 0
                <= #[trigger] sibling_positions(s, p)[a] < s.len() && is_sibling(
                s[sibling_positions(s, p)[a]],
                p,
            ) by {
                if a < r.len() {
                    assert(sibling_positions(s, p)[a] == r[a]);
                    assert(is_sibling(t[r[a]], p));
                }
            }
        } else {
            assert(sibling_positions(s, p) == r);
            assert forall|a: int| 0 <= a < r.len() implies is_sibling(s[r[a]], p) by {
                assert(is_sibling(t[r[a]], p));
            }
        }
    }
}

pub open spec fn is_sibling(b: Block, p: Block) -> bool {
    &&& 2 * b.size == p.size
    &&& trunc_div(b.pos.x as int, 2 * b.size) * (2 * b.size) == p.pos.x
    &&& trunc_div(b.pos.y as int, 2 * b.size) * (2 * b.size) == p.pos.y
}

/// A placed block is one of the four quarters of its parent.
proof fn lemma_quadrant(b: Block, p: Block)
    requires
        b.size > 0,
        b.pos.x >= 0,
        b.pos.y >= 0,
        b.pos.x % b.size == 0,
        b.pos.y % b.size == 0,
        is_sibling(b, p),
    ensures
        b.size > 0,
        p.pos.x % p.size == 0,
        p.pos.y % p.size == 0,
        p.pos.x >= 0,
        p.pos.y >= 0,
        b.pos.x == p.pos.x || b.pos.x == p.pos.x + b.size,
        b.pos.y == p.pos.y || b.pos.y == p.pos.y + b.size,
{
    lemma_parent_pos(b.pos.x as int, b.size as int);
    lemma_parent_pos(b.pos.y as int, b.size as int);
}

/// A cell of a quarter lies in the parent.
proof fn lemma_quadrant_inside(b: Block, p: Block, x: int, y: int)
    requires
        b.size > 0,
        2 * b.size == p.size,
        b.pos.x == p.pos.x || b.pos.x == p.pos.x + b.size,
        b.pos.y == p.pos.y || b.pos.y == p.pos.y + b.size,
    ensures
        b.contains(x, y) ==> p.contains(x, y),
{
}

/// Four disjoint quarters of a parent cover it.
proof fn lemma_quadrants_cover(a: Block, b: Block, c: Block, d: Block, p: Block, x: int, y: int)
    requires
        a.size > 0,
        a.size == b.size && b.size == c.size && c.size == d.size,
        2 * a.size == p.size,
        a.pos.x == p.pos.x || a.pos.x == p.pos.x + a.size,
        a.pos.y == p.pos.y || a.pos.y == p.pos.y + a.size,
        b.pos.x == p.pos.x || b.pos.x == p.pos.x + a.size,
        b.pos.y == p.pos.y || b.pos.y == p.pos.y + a.size,
        c.pos.x == p.pos.x || c.pos.x == p.pos.x + a.size,
        c.pos.y == p.pos.y || c.pos.y == p.pos.y + a.size,
        d.pos.x == p.pos.x || d.pos.x == p.pos.x + a.size,
        d.pos.y == p.pos.y || d.pos.y == p.pos.y + a.size,
        a.disjoint(b),
        a.disjoint(c),
        a.disjoint(d),
        b.disjoint(c),
        b.disjoint(d),
        c.disjoint(d),
        p.contains(x, y),
    ensures
        a.contains(x, y) || b.contains(x, y) || c.contains(x, y) || d.contains(x, y),
{
}

/// The parent of four disjoint quarters placed in a square lies in the square.
proof fn lemma_quadrants_inside(a: Block, b: Block, c: Block, d: Block, p: Block, side: int)
    requires
        a.size > 0,
        a.size == b.size && b.size == c.size && c.size == d.size,
        2 * a.size == p.size,
        a.pos.x == p.pos.x || a.pos.x == p.pos.x + a.size,
        a.pos.y == p.pos.y || a.pos.y == p.pos.y + a.size,
        b.pos.x == p.pos.x || b.pos.x == p.pos.x + a.size,
        b.pos.y == p.pos.y || b.pos.y == p.pos.y + a.size,
        c.pos.x == p.pos.x || c.pos.x == p.pos.x + a.size,
        c.pos.y == p.pos.y || c.pos.y == p.pos.y + a.size,
        d.pos.x == p.pos.x || d.pos.x == p.pos.x + a.size,
        d.pos.y == p.pos.y || d.pos.y == p.pos.y + a.size,
        a.disjoint(b),
        a.disjoint(c),
        a.disjoint(d),
        b.disjoint(c),
        b.disjoint(d),
        c.disjoint(d),
        a.placed_in(side),
        b.placed_in(side),
        c.placed_in(side),
        d.placed_in(side),
        is_pow2(p.size as int),
        p.pos.x % p.size == 0,
        p.pos.y % p.size == 0,
        p.pos.x >= 0,
        p.pos.y >= 0,
    ensures
        p.placed_in(side),
{
}

/// A power of two that fits in a square whose side is a power of two is at most
/// that side, and is positive.
proof fn lemma_pow2_lt_or_eq(a: int, side: int)
    requires
        is_pow2(a),
        a <= side,
    ensures
        a >= 1,
{
}

pub proof fn lemma_pow2_double(a: int)
    requires
        is_pow2(a),
    ensures
        is_pow2(2 * a),
{
    assert((2 * a) / 2 == a);
}

pub proof fn lemma_pow2_half(a: int)
    requires
        is_pow2(a),
        a > 1,
    ensures
        is_pow2(a / 2),
        a == 2 * (a / 2),
{
}

/// Of two powers of two, the larger is at least twice the smaller.
pub proof fn lemma_pow2_lt(a: int, b: int)
    requires
        is_pow2(a),
        is_pow2(b),
        a < b,
    ensures
        2 * a <= b,
    decreases a + b,
{
    if a == 1 {
        assert(b > 1);
    } else {
        lemma_pow2_half(a);
        lemma_pow2_half(b);
        lemma_pow2_lt(a / 2, b / 2);
    }
}

/// A position aligned to `2 * h` is aligned to `h`, and so is the next one `h` further.
proof fn lemma_align_half(x: int, h: int)
    requires
        h > 0,
        x % (2 * h) == 0,
    ensures
        x % h == 0,
        (x + h) % h == 0,
{
    let k = x / (2 * h);
    assert(x == k * (2 * h)) by (nonlinear_arith)
        requires
            h > 0,
            x % (2 * h) == 0,
            k == x / (2 * h),
    ;
    assert(x == (2 * k) * h) by (nonlinear_arith)
        requires
            x == k * (2 * h),
    ;
    assert(x % h == 0) by (nonlinear_arith)
        requires
            x == (2 * k) * h,
            h > 0,
    ;
    assert(x + h == (2 * k + 1) * h) by (nonlinear_arith)
        requires
            x == (2 * k) * h,
    ;
    assert((x + h) % h == 0) by (nonlinear_arith)
        requires
            x + h == (2 * k + 1) * h,
            h > 0,
    ;
}

/// Where the parent of a block in a pack starts: aligned to its side, and at
/// most one side of the block before it.
proof fn lemma_parent_pos(x: int, s: int)
    requires
        s > 0,
        x >= 0,
        x % s == 0,
    ensures
        trunc_div(x, 2 * s) * (2 * s) % (2 * s) == 0,
        x == trunc_div(x, 2 * s) * (2 * s) || x == trunc_div(x, 2 * s) * (2 * s) + s,
        trunc_div(x, 2 * s) * (2 * s) >= 0,
{
    let q = x / (2 * s);
    assert(trunc_div(x, 2 * s) == q);
    assert(q * (2 * s) % (2 * s) == 0) by (nonlinear_arith)
        requires
            s > 0,
    ;
    assert(q * (2 * s) <= x < q * (2 * s) + 2 * s && q >= 0) by (nonlinear_arith)
        requires
            s > 0,
            x >= 0,
            q == x / (2 * s),
    ;
    let m = x / s;
    assert(x == m * s) by (nonlinear_arith)
        requires
            s > 0,
            x % s == 0,
            m == x / s,
    ;
    assert(m == 2 * q || m == 2 * q + 1) by (nonlinear_arith)
        requires
            s > 0,
            x == m * s,
            q * (2 * s) <= x < q * (2 * s) + 2 * s,
    ;
    assert(x == q * (2 * s) || x == q * (2 * s) + s) by (nonlinear_arith)
        requires
            x == m * s,
            m == 2 * q || m == 2 * q + 1,
    ;
}

/// Blocks that are not disjoint have a common cell.
pub proof fn lemma_common_cell(a: Block, b: Block)
    requires
        !a.disjoint(b),
        a.size > 0,
        b.size > 0,
    ensures
        a.contains(
            if a.pos.x < b.pos.x { b.pos.x as int } else { a.pos.x as int },
            if a.pos.y < b.pos.y { b.pos.y as int } else { a.pos.y as int },
        ),
        b.contains(
            if a.pos.x < b.pos.x { b.pos.x as int } else { a.pos.x as int },
            if a.pos.y < b.pos.y { b.pos.y as int } else { a.pos.y as int },
        ),
{
}

/// Giving back a block that `allocate` handed out makes free exactly the
/// cells that were free before: `allocate` took the block's cells out of the
/// free ones, and `free` puts them back.
pub proof fn law_free_undoes_allocate(before: Pack, b: Block, allocated: Pack, freed: Pack)
    requires
        forall|x: int, y: int| b.contains(x, y) ==> before.covers(x, y),
        forall|x: int, y: int| #[trigger] allocated.covers(x, y) == (before.covers(x, y) && !b.contains(x, y)),
        forall|x: int, y: int| #[trigger] freed.covers(x, y) == (allocated.covers(x, y) || b.contains(x, y)),
    ensures
        forall|x: int, y: int| #[trigger] freed.covers(x, y) == before.covers(x, y),
{
    assert forall|x: int, y: int| #[trigger] freed.covers(x, y) == before.covers(x, y) by {
        assert(freed.covers(x, y) == (allocated.covers(x, y) || b.contains(x, y)));
        assert(allocated.covers(x, y) == (before.covers(x, y) && !b.contains(x, y)));
    }
}

/// Free quarters are joined: a free list that holds no four quarters of one
/// block still holds none after `free`, whichever quarter comes back last.
/// When the other three quarters of the freed block's parent are free, the
/// four make way for the parent (and so on up), so giving back every block
/// that was handed out leaves the whole square as one block.
pub proof fn law_free_joins_quarters(before: Pack, b: Block, after: Pack)
    requires
        before.wf(),
        merged(before.blocks()),
        b.placed_in(before.side()),
        forall|x: int, y: int| b.contains(x, y) ==> !before.covers(x, y),
        after.blocks() == freed_list(before.blocks(), b),
    ensures
        merged(after.blocks()),
        !(exists|i: int, j: int, k: int, l: int|
            0 <= i < j < k < l < after.blocks().len() && #[trigger] quarter_of(after.blocks()[i], parent_block(b))
                && #[trigger] quarter_of(after.blocks()[j], parent_block(b)) && #[trigger] quarter_of(
                after.blocks()[k],
                parent_block(b),
            ) && #[trigger] quarter_of(after.blocks()[l], parent_block(b))),
{
    lemma_freed_merged(before.blocks(), b, before.side());
    let p = parent_block(b);
    lemma_pow2_lt_or_eq(b.size as int, before.side());
    lemma_trunc_div_mul_bound(b.pos.x as int, 2 * b.size);
    lemma_trunc_div_mul_bound(b.pos.y as int, 2 * b.size);
    lemma_parent_pos(b.pos.x as int, b.size as int);
    lemma_parent_pos(b.pos.y as int, b.size as int);
    assert(aligned(p));
}

/// No cell is handed out twice: when `allocate` hands out `b` (taking its
/// cells out of the free ones, as its `ensures` says) and a later `allocate`
/// hands out `c` (all of whose cells were free, as its `ensures` says), `b`
/// and `c` share no cell.
pub proof fn law_allocated_not_free(before: Pack, b: Block, allocated: Pack, c: Block)
    requires
        forall|x: int, y: int| #[trigger] allocated.covers(x, y) == (before.covers(x, y) && !b.contains(x, y)),
        forall|x: int, y: int| c.contains(x, y) ==> allocated.covers(x, y),
    ensures
        forall|x: int, y: int| !(b.contains(x, y) && c.contains(x, y)),
{
    assert forall|x: int, y: int| !(b.contains(x, y) && c.contains(x, y)) by {
        if c.contains(x, y) {
            assert(allocated.covers(x, y));
        }
    }
}

/// The cell `(x, y)` is drawn as free: it lies in a free block, leaving out
/// the last row and column of each block, so that neighbouring blocks show
/// apart.
pub open spec fn marked(s: Seq<Block>, x: int, y: int) -> bool {
    exists|i: int|
        0 <= i < s.len() && #[trigger] s[i].pos.x <= x < s[i].pos.x + s[i].size - 1 && s[i].pos.y <= y
            < s[i].pos.y + s[i].size - 1
}

/// One cell of the picture: two characters, `#` where it is marked.
pub open spec fn picture_cell(s: Seq<Block>, x: int, y: int) -> Seq<char> {
    if marked(s, x, y) {
        seq!['#', '#']
    } else {
        seq![' ', ' ']
    }
}

/// The first `w` cells of row `y`.
pub open spec fn picture_row(s: Seq<Block>, y: int, w: int) -> Seq<char>
    decreases w,
{
    if w <= 0 {
        Seq::empty()
    } else {
        picture_row(s, y, w - 1) + picture_cell(s, w - 1, y)
    }
}

/// The first `h` rows of the picture of a square of side `side`, each
/// ended by a new line.
pub open spec fn picture(s: Seq<Block>, side: int, h: int) -> Seq<char>
    decreases h,
{
    if h <= 0 {
        Seq::empty()
    } else {
        (picture(s, side, h - 1) + picture_row(s, h - 1, side)).push('\n')
    }
}

impl Pack {
    /// Whether the cell `(x, y)` is drawn as free.
    fn marks_cell(&self, x: i32, y: i32) -> (b: bool)
        requires
            self.wf(),
        ensures
            b == marked(self.blocks(), x as int, y as int),
    {
        let mut i: usize = 0;
        while i < self.free.len()
            invariant
                self.wf(),
                i <= self.free@.len(),
                forall|j: int|
                    0 <= j < i ==> !(#[trigger] self.free@[j].pos.x <= x < self.free@[j].pos.x
                        + self.free@[j].size - 1 && self.free@[j].pos.y <= y < self.free@[j].pos.y
                        + self.free@[j].size - 1),
            decreases self.free@.len() - i,
        {
            let b = self.free[i];
            proof {
                assert(self.free@[i as int].placed_in(self.size as int));
            }
            if b.pos.x <= x && x < b.pos.x + b.size - 1 && b.pos.y <= y && y < b.pos.y + b.size - 1 {
                return true;
            }
            i = i + 1;
        }
        false
    }

    /// A picture of the free blocks, for debugging: a row of text for each
    /// row of cells, two characters for each cell, `#` for a free one.
    pub fn dbg(&self) -> (r: String)
        requires
            self.wf(),
        ensures
            r@ == picture(self.blocks(), self.side(), self.side()),
    {
        let mut r = String::new();
        let size = self.size;
        let mut y: i32 = 0;
        while y < size
            invariant
                self.wf(),
                size == self.side(),
                0 <= y <= size,
                r@ == picture(self.blocks(), size as int, y as int),
            decreases size - y,
        {
            let mut x: i32 = 0;
            let ghost start = r@;
            while x < size
                invariant
                    self.wf(),
                    size == self.side(),
                    0 <= y < size,
                    0 <= x <= size,
                    r@ == start + picture_row(self.blocks(), y as int, x as int),
                decreases size - x,
            {
                let c = if self.marks_cell(x, y) {
                    '#'
                } else {
                    ' '
                };
                r.push(c);
                r.push(c);
                proof {
                    assert(r@ =~= start + picture_row(self.blocks(), y as int, x + 1));
                }
                x = x + 1;
            }
            r.push('\n');
            y = y + 1;
        }
        r
    }
}

} // verus!
