use vstd::prelude::*;
use crate::math::{V2u, URect};

verus! {

/// A row of the packer: how far it is filled, and how high it is.
#[derive(Clone, Copy, PartialEq, Eq, Structural, Debug)]
pub struct Shelf {
    pub width: u32,
    pub height: u32,
}

/// The height of the shelves before shelf `i`: where shelf `i` starts.
pub open spec fn shelf_y(s: Seq<Shelf>, i: int) -> int
    decreases i,
{
    if i <= 0 {
        0
    } else {
        shelf_y(s, i - 1) + s[i - 1].height
    }
}

/// A rectangle of `w` by `h` (padding included) fits in shelf `sh` of a packer
/// `size_x` wide.
pub open spec fn fits_shelf(sh: Shelf, w: int, h: int, size_x: int) -> bool {
    sh.width + w <= size_x && h <= sh.height
}

/// Shelf `ix` is where the rectangle goes: of the shelves it fits in, the one
/// with the least height left over, and the first of those.
pub open spec fn is_best_shelf(s: Seq<Shelf>, ix: int, w: int, h: int, size_x: int) -> bool {
    &&& 0 <= ix < s.len()
    &&& fits_shelf(s[ix], w, h, size_x)
    &&& forall|j: int| 0 <= j < s.len() && #[trigger] fits_shelf(s[j], w, h, size_x) ==> s[ix].height <= s[j].height
    &&& forall|j: int| 0 <= j < ix && #[trigger] fits_shelf(s[j], w, h, size_x) ==> s[ix].height < s[j].height
}

/// Write only rect packer
pub struct ShelfPack {
    size: V2u,
    shelves: Vec<Shelf>,
    /// the rectangles handed out so far, padding included, each with its shelf
    placed: Ghost<Seq<(URect, int)>>,
}

impl ShelfPack {
    pub closed spec fn size(&self) -> V2u {
        self.size
    }

    pub closed spec fn shelves(&self) -> Seq<Shelf> {
        self.shelves@
    }

    /// The rectangles handed out so far, each with the padding after it.
    pub closed spec fn placed(&self) -> Seq<URect> {
        Seq::new(self.placed@.len(), |k: int| self.placed@[k].0)
    }

    /// The shelves are stacked inside the packer, and every rectangle handed out
    /// lies in the filled part of one shelf.
    pub closed spec fn wf(&self) -> bool {
        &&& shelf_y(self.shelves@, self.shelves@.len() as int) <= self.size.y
        &&& forall|i: int| 0 <= i < self.shelves@.len() ==> #[trigger] self.shelves@[i].width <= self.size.x
        &&& forall|k: int| 0 <= k < self.placed@.len() ==> 0 <= #[trigger] self.placed@[k].1 < self.shelves@.len()
        &&& forall|k: int| 0 <= k < self.placed@.len() ==> in_shelf(#[trigger] self.placed@[k].0, self.shelves@, self.placed@[k].1)
        &&& pairwise_apart(self.placed())
    }

    pub fn new(size: V2u) -> (p: ShelfPack)
        ensures
            p.wf(),
            p.size() == size,
            p.shelves().len() == 0,
            p.placed().len() == 0,
    {
        ShelfPack { size, shelves: Vec::new(), placed: Ghost(Seq::empty()) }
    }

    proof fn lemma_placed_inside(&self)
        requires
            self.wf(),
        ensures
            forall|k: int|
                0 <= k < self.placed().len() ==> (#[trigger] self.placed()[k]).pos.x + self.placed()[k].size.x
                    <= self.size().x && self.placed()[k].pos.y + self.placed()[k].size.y <= self.size().y,
    {
        assert forall|k: int| 0 <= k < self.placed().len() implies (#[trigger] self.placed()[k]).pos.x
            + self.placed()[k].size.x <= self.size().x && self.placed()[k].pos.y + self.placed()[k].size.y
            <= self.size().y by {
            let i = self.placed@[k].1;
            assert(in_shelf(self.placed@[k].0, self.shelves@, i));
            assert(self.shelves@[i].width <= self.size.x);
            lemma_shelf_y_mono(self.shelves@, i, self.shelves@.len() as int);
        }
    }

    /// Place a rectangle of `image_size`, with one cell of padding to its right
    /// and below it. It goes to the shelf with the least height to spare of those
    /// it fits in (the first of those), right of what that shelf holds; when it
    /// fits in none, a new shelf as high as the rectangle is opened below the
    /// others. `None` when that does not fit either.
    #[verifier::spinoff_prover]
    pub fn add(&mut self, image_size: V2u) -> (r: Option<URect>)
        requires
            old(self).wf(),
            image_size.x < u32::MAX,
            image_size.y < u32::MAX,
            forall|j: int|
                0 <= j < old(self).shelves().len() ==> #[trigger] old(self).shelves()[j].width + image_size.x + 1
                    <= u32::MAX,
            (forall|j: int|
                0 <= j < old(self).shelves().len() ==> !#[trigger] fits_shelf(
                    old(self).shelves()[j],
                    image_size.x + 1,
                    image_size.y + 1,
                    old(self).size().x as int,
                )) ==> shelf_y(old(self).shelves(), old(self).shelves().len() as int) + image_size.y + 1
                <= u32::MAX,
        ensures
            final(self).wf(),
            final(self).size() == old(self).size(),
            ({
                let w = image_size.x + 1;
                let h = image_size.y + 1;
                let s = old(self).shelves();
                let size = old(self).size();
                let none_fits = forall|j: int| 0 <= j < s.len() ==> !#[trigger] fits_shelf(s[j], w, h, size.x as int);
                &&& r is None == (none_fits && (w > size.x || shelf_y(s, s.len() as int) + h > size.y))
                &&& r is None ==> final(self).shelves() == s && final(self).placed() == old(self).placed()
                &&& r is None ==> *final(self) == *old(self)
                &&& r matches Some(rect) ==> {
                    &&& rect.size == image_size
                    &&& rect.pos.x + w <= size.x
                    &&& rect.pos.y + h <= size.y
                    &&& final(self).placed() == old(self).placed().push(URect { pos: rect.pos, size: V2u { x: w as u32, y: h as u32 } })
                    &&& (exists|ix: int| #[trigger] is_best_shelf(s, ix, w, h, size.x as int)
                            && rect.pos.x == s[ix].width && rect.pos.y == shelf_y(s, ix)
                            && final(self).shelves() == s.update(ix, Shelf { width: (s[ix].width + w) as u32, height: s[ix].height }))
                        || (none_fits && rect.pos.x == 0 && rect.pos.y == shelf_y(s, s.len() as int)
                            && final(self).shelves() == s.push(Shelf { width: w as u32, height: h as u32 }))
                }
            }),
    {
        let ghost s = self.shelves@;
        let ghost old_image_size = image_size;
        let pad: u32 = 1;
        let image_size = V2u { x: image_size.x + pad, y: image_size.y + pad };
        let w = image_size.x;
        let h = image_size.y;
        let n = self.shelves.len();
        proof {
            if n > 0 {
                lemma_shelf_y_mono(s, 0, n as int);
            }
        }

        let mut best_shelf: Option<(u32, usize, u32)> = None;
        let mut y: u32 = 0;
        let mut i: usize = 0;
        while i < n
            invariant
                i <= n,
                n == s.len(),
                self.shelves@ == s,
                self.wf(),
                w == image_size.x,
                h == image_size.y,
                forall|j: int| 0 <= j < n ==> #[trigger] s[j].width + w <= u32::MAX,
                (forall|j: int| 0 <= j < n ==> !#[trigger] fits_shelf(s[j], w as int, h as int, self.size.x as int))
                    ==> shelf_y(s, n as int) + h <= u32::MAX,
                y == shelf_y(s, i as int),
                shelf_y(s, n as int) <= self.size.y,
                best_shelf is None ==> forall|j: int| 0 <= j < i ==> !#[trigger] fits_shelf(s[j], w as int, h as int, self.size.x as int),
                best_shelf matches Some((e, bi, by)) ==> {
                    &&& bi < i
                    &&& fits_shelf(s[bi as int], w as int, h as int, self.size.x as int)
                    &&& e == s[bi as int].height - h
                    &&& by == shelf_y(s, bi as int)
                    &&& forall|j: int| 0 <= j < i && #[trigger] fits_shelf(s[j], w as int, h as int, self.size.x as int) ==> s[bi as int].height <= s[j].height
                    &&& forall|j: int| 0 <= j < bi && #[trigger] fits_shelf(s[j], w as int, h as int, self.size.x as int) ==> s[bi as int].height < s[j].height
                },
            decreases n - i,
        {
            let shelf = self.shelves[i];
            proof {
                assert(s[i as int].width <= self.size.x);
                lemma_shelf_y_mono(s, i as int, n as int);
            }
            let fits_x = shelf.width + image_size.x <= self.size.x;
            let fits_y = image_size.y <= shelf.height;

            // skip this shelf if we don't fit
            if fits_x && fits_y {
                let error = shelf.height - image_size.y;

                let is_better = match best_shelf {
                    Some((best_error, _, _)) => best_error > error,
                    None => true,
                };

                if is_better {
                    best_shelf = Some((error, i, y));
                }
            }

            y = y + shelf.height;
            i = i + 1;
        }

        let (ix, y) = match best_shelf {
            Some((_, ix, y)) => (ix, y),
            None => {
                let fits_x = image_size.x <= self.size.x;
                let fits_y = y + image_size.y <= self.size.y;

                if !fits_x || !fits_y {
                    return None;
                }

                let ix = self.shelves.len();
                self.shelves.push(Shelf { width: 0, height: image_size.y });
                (ix, y)
            },
        };
        let ghost s1 = self.shelves@;
        let shelf = self.shelves[ix];
        let x = shelf.width;
        proof {
            assert(s1[ix as int].width <= self.size.x);
        }
        self.shelves.set(ix, Shelf { width: shelf.width + image_size.x, height: shelf.height });
        let rect = URect::corner_size(V2u { x, y }, V2u { x: image_size.x - pad, y: image_size.y - pad });
        let ghost padded = URect { pos: V2u { x, y }, size: image_size };
        proof {
            let s2 = self.shelves@;
            let old_placed = self.placed@;
            assert forall|i: int| 0 <= i <= s1.len() implies shelf_y(s2, i) == shelf_y(s1, i) by {
                lemma_shelf_y_update(s1, ix as int, (shelf.width + image_size.x) as u32, i);
            }
            if ix == n {
                assert(s1 == s.push(Shelf { width: 0, height: h }));
                assert forall|i: int| 0 <= i <= s.len() implies shelf_y(s1, i) == shelf_y(s, i) by {
                    lemma_shelf_y_push(s, Shelf { width: 0, height: h }, i);
                }
            } else {
                assert(s1 == s);
            }
            self.placed@ = self.placed@.push((padded, ix as int));
            assert(shelf_y(s2, s2.len() as int) <= self.size.y);
            lemma_shelf_y_mono(s2, ix as int, s2.len() as int);
            assert forall|k: int| 0 <= k < self.placed@.len() implies in_shelf(#[trigger] self.placed@[k].0, s2, self.placed@[k].1) by {
                if k < old_placed.len() {
                    assert(in_shelf(old_placed[k].0, s1, old_placed[k].1));
                }
            }
            assert forall|a: int, b: int| 0 <= a < self.placed().len() && 0 <= b < self.placed().len() && a != b implies apart(#[trigger] self.placed()[a], #[trigger] self.placed()[b]) by {
                assert(self.placed()[a] == self.placed@[a].0);
                assert(self.placed()[b] == self.placed@[b].0);
                if a < old_placed.len() && b < old_placed.len() {
                    assert(old(self).placed()[a] == old_placed[a].0);
                    assert(old(self).placed()[b] == old_placed[b].0);
                } else {
                    let k = if a < old_placed.len() { a } else { b };
                    let other = if a < old_placed.len() { b } else { a };
                    assert(other == old_placed.len());
                    assert(self.placed()[other] == padded);
                    assert(self.placed()[k] == old_placed[k].0);
                    let ik = old_placed[k].1;
                    assert(in_shelf(old_placed[k].0, s1, ik));
                    assert(padded.pos.x == s1[ix as int].width);
                    assert(padded.pos.y == shelf_y(s1, ix as int));
                    assert(padded.pos.y + padded.size.y <= shelf_y(s1, ix as int) + s1[ix as int].height);
                    if ik < ix {
                        lemma_shelf_y_mono(s1, ik, ix as int);
                    } else if ik > ix {
                        lemma_shelf_y_mono(s1, ix as int, ik);
                    }
                }
            }
            assert(self.placed() =~= old(self).placed().push(URect { pos: rect.pos, size: V2u { x: w, y: h } }));
            if ix < n {
                assert(is_best_shelf(s, ix as int, w as int, h as int, self.size.x as int));
                assert(self.shelves@ == s.update(ix as int, Shelf { width: (s[ix as int].width + w) as u32, height: s[ix as int].height }));
                assert(rect.pos.x == s[ix as int].width && rect.pos.y == shelf_y(s, ix as int));
            } else {
                assert(self.shelves@ =~= s.push(Shelf { width: w, height: h }));
                assert(rect.pos.x == 0 && rect.pos.y == shelf_y(s, s.len() as int));
            }
            assert(rect.size == old_image_size);
            assert(rect.pos.x + w <= self.size.x);
            assert(rect.pos.y + h <= self.size.y);
            assert(self.wf());
        }
        Some(rect)
    }
}

/// Rectangle `r` lies in the filled part of shelf `i`.
pub open spec fn in_shelf(r: URect, s: Seq<Shelf>, i: int) -> bool {
    &&& r.pos.x + r.size.x <= s[i].width
    &&& shelf_y(s, i) <= r.pos.y
    &&& r.pos.y + r.size.y <= shelf_y(s, i) + s[i].height
}

/// Two rectangles share no cell.
pub open spec fn apart(a: URect, b: URect) -> bool {
    ||| a.pos.x + a.size.x <= b.pos.x
    ||| b.pos.x + b.size.x <= a.pos.x
    ||| a.pos.y + a.size.y <= b.pos.y
    ||| b.pos.y + b.size.y <= a.pos.y
}

/// No two of the rectangles share a cell.
pub open spec fn pairwise_apart(s: Seq<URect>) -> bool {
    forall|i: int, j: int| 0 <= i < s.len() && 0 <= j < s.len() && i != j ==> apart(#[trigger] s[i], #[trigger] s[j])
}

/// Shelves lie one below the other.
pub proof fn lemma_shelf_y_mono(s: Seq<Shelf>, i: int, j: int)
    requires
        0 <= i < j <= s.len(),
    ensures
        shelf_y(s, i) + s[i].height <= shelf_y(s, j),
    decreases j - i,
{
    if j > i + 1 {
        lemma_shelf_y_mono(s, i, j - 1);
    }
}

/// Changing how far a shelf is filled moves no shelf.
pub proof fn lemma_shelf_y_update(s: Seq<Shelf>, ix: int, w: u32, i: int)
    requires
        0 <= ix < s.len(),
        0 <= i <= s.len(),
    ensures
        shelf_y(s.update(ix, Shelf { width: w, height: s[ix].height }), i) == shelf_y(s, i),
    decreases i,
{
    if i > 0 {
        lemma_shelf_y_update(s, ix, w, i - 1);
    }
}

/// Adding a shelf at the bottom moves no shelf.
pub proof fn lemma_shelf_y_push(s: Seq<Shelf>, sh: Shelf, i: int)
    requires
        0 <= i <= s.len(),
    ensures
        shelf_y(s.push(sh), i) == shelf_y(s, i),
    decreases i,
{
    if i > 0 {
        lemma_shelf_y_push(s, sh, i - 1);
        assert(s.push(sh)[i - 1] == s[i - 1]);
    }
}

/// No two rectangles that a packer handed out share a cell (padding
/// included), and each lies inside the packer.
pub proof fn law_placed_apart(p: ShelfPack)
    requires
        p.wf(),
    ensures
        pairwise_apart(p.placed()),
        forall|k: int|
            0 <= k < p.placed().len() ==> (#[trigger] p.placed()[k]).pos.x + p.placed()[k].size.x
                <= p.size().x && p.placed()[k].pos.y + p.placed()[k].size.y <= p.size().y,
{
    p.lemma_placed_inside();
}

/// A rectangle that `add` hands out shares no cell with any rectangle handed
/// out before it (padding included): `add` records it, padded, after the
/// earlier ones, and a packer keeps its rectangles apart.
pub proof fn law_add_apart_from_earlier(before: ShelfPack, after: ShelfPack, rect: URect)
    requires
        after.wf(),
        after.placed() == before.placed().push(
            URect { pos: rect.pos, size: V2u { x: (rect.size.x + 1) as u32, y: (rect.size.y + 1) as u32 } },
        ),
        rect.size.x + 1 <= u32::MAX,
        rect.size.y + 1 <= u32::MAX,
    ensures
        forall|k: int| 0 <= k < before.placed().len() ==> apart(rect, #[trigger] before.placed()[k]),
{
    law_placed_apart(after);
    let n = before.placed().len();
    assert forall|k: int| 0 <= k < n implies apart(rect, #[trigger] before.placed()[k]) by {
        assert(after.placed()[k] == before.placed()[k]);
        assert(apart(after.placed()[n as int], after.placed()[k]));
    }
}

} // verus!
