use vstd::prelude::*;
use crate::math::{Rect, V2i, V3u};
use crate::module::fractal::TEXTURE_SIZE;

verus! {

/// Each region keeps this many pixels of border on every side.
pub const PADDING: u32 = 1;

/// The free slots of one new page: row by row, `(i, j, page)` for `j` the row
/// and `i` the column, each in `0..size`.
pub open spec fn page_slots(size: nat, page: nat) -> Seq<V3u> {
    Seq::new(
        size * size,
        |k: int| V3u { x: (k % size as int) as u32, y: (k / size as int) as u32, z: page as u32 },
    )
}

/// The slot lies on one of the first `pages` pages of side `size`.
pub open spec fn slot_in_bounds(v: V3u, size: nat, pages: nat) -> bool {
    v.x < size && v.y < size && v.z < pages
}

/// Hands out square regions of texture pages, and takes them back.
///
/// The pages themselves live with whoever draws them: the atlas only counts
/// them, and keeps the list of free slots.
pub struct Atlas {
    /// number of tiles in both x and y
    size: u32,
    /// resolution of one tile
    res: u32,
    /// free slots, where `z` is the page
    free: Vec<V3u>,
    /// number of pages made so far
    pages: u32,
}

/// A region of one page of an atlas.
#[derive(Debug)]
pub struct AtlasRegion {
    pub index: V3u,
    res: u32,
    free: bool,
}

impl Atlas {
    pub closed spec fn size(&self) -> nat {
        self.size as nat
    }

    pub closed spec fn res(&self) -> nat {
        self.res as nat
    }

    /// The free slots; the next region comes from the end.
    pub closed spec fn free_slots(&self) -> Seq<V3u> {
        self.free@
    }

    pub closed spec fn pages(&self) -> nat {
        self.pages as nat
    }

    /// The sizes fit the integer types in which regions are computed.
    pub closed spec fn wf(&self) -> bool {
        &&& 2 <= self.res
        &&& 1 <= self.size <= 64
        &&& self.size * self.res <= i32::MAX
    }

    pub proof fn lemma_wf_bounds(&self)
        requires
            self.wf(),
        ensures
            1 <= self.size() <= 64,
            2 <= self.res(),
    {
    }

    /// Every free slot lies on a page that was made.
    pub open spec fn slots_in_bounds(&self) -> bool {
        forall|k: int|
            0 <= k < self.free_slots().len() ==> slot_in_bounds(
                #[trigger] self.free_slots()[k],
                self.size(),
                self.pages(),
            )
    }

    /// The slot that `allocate` hands out next: the last free one, or else the
    /// last slot of a new page.
    pub open spec fn next_slot(&self) -> V3u {
        if self.free_slots().len() > 0 {
            self.free_slots().last()
        } else {
            page_slots(self.size(), self.pages()).last()
        }
    }

    /// The free slots after `allocate`.
    pub open spec fn free_after_allocate(&self) -> Seq<V3u> {
        if self.free_slots().len() > 0 {
            self.free_slots().drop_last()
        } else {
            page_slots(self.size(), self.pages()).drop_last()
        }
    }

    /// The number of pages after `allocate`.
    pub open spec fn pages_after_allocate(&self) -> nat {
        if self.free_slots().len() > 0 {
            self.pages()
        } else {
            self.pages() + 1
        }
    }

    /// An empty atlas whose pages are 4096 pixels wide (about the largest
    /// texture that is usable), cut in tiles of `TEXTURE_SIZE` pixels.
    pub fn new() -> (a: Atlas)
        ensures
            a.wf(),
            a.res() == TEXTURE_SIZE,
            a.size() == 4096nat / (TEXTURE_SIZE as nat),
            a.free_slots() == Seq::<V3u>::empty(),
            a.pages() == 0,
    {
        let res: u32 = 128;
        let texture_size: u32 = 4 * 1024;
        let size = texture_size / res;
        Atlas { free: Vec::new(), size, res, pages: 0 }
    }

    /// The number of pages made so far.
    pub fn page_count(&self) -> (n: u32)
        ensures
            n == self.pages(),
    {
        self.pages
    }

    /// The side of a page in pixels.
    pub fn page_size(&self) -> (n: u32)
        requires
            self.wf(),
        ensures
            n == self.size() * self.res(),
    {
        self.size * self.res
    }

    /// Make one more page, and add all of its slots to the free list.
    pub fn alloc_page(&mut self)
        requires
            old(self).wf(),
            old(self).pages() < u32::MAX,
        ensures
            final(self).wf(),
            final(self).size() == old(self).size(),
            final(self).res() == old(self).res(),
            final(self).pages() == old(self).pages() + 1,
            final(self).free_slots() == old(self).free_slots() + page_slots(
                old(self).size(),
                old(self).pages(),
            ),
    {
        let page = self.pages;
        let ghost start = self.free@;
        let size = self.size;
        let ghost res = self.res;
        let mut j: u32 = 0;
        while j < size
            invariant
                self.wf(),
                size == self.size,
                res == self.res,
                page == self.pages,
                j <= size,
                self.free@ == start + page_slots(size as nat, page as nat).take(j * size),
            decreases size - j,
        {
            let mut i: u32 = 0;
            while i < size
                invariant
                    self.wf(),
                    size == self.size,
                    res == self.res,
                    page == self.pages,
                    j < size,
                    i <= size,
                    self.free@ == start + page_slots(size as nat, page as nat).take(j * size + i),
                decreases size - i,
            {
                proof {
                    assert(j * size + i < size * size) by (nonlinear_arith)
                        requires
                            j < size,
                            i < size,
                    ;
                    let k = j * size + i;
                    assert((j * size + i) % (size as int) == i && (j * size + i) / (size as int) == j)
                        by (nonlinear_arith)
                        requires
                            i < size,
                            0 < size,
                    ;
                    assert(page_slots(size as nat, page as nat)[k] == V3u { x: i, y: j, z: page });
                    assert(page_slots(size as nat, page as nat).take(k + 1) =~= page_slots(
                        size as nat,
                        page as nat,
                    ).take(k).push(V3u { x: i, y: j, z: page }));
                }
                self.free.push(V3u { x: i, y: j, z: page });
                i = i + 1;
            }
            proof {
                assert(j * size + size == (j + 1) * size) by (nonlinear_arith);
            }
            j = j + 1;
        }
        proof {
            assert(page_slots(size as nat, page as nat).take(size * size) =~= page_slots(
                size as nat,
                page as nat,
            ));
        }
        self.pages = page + 1;
    }

    /// Hand out a free region, making a new page first if none is free.
    pub fn allocate(&mut self) -> (r: AtlasRegion)
        requires
            old(self).wf(),
            old(self).free_slots().len() > 0 || old(self).pages() < u32::MAX,
        ensures
            final(self).wf(),
            final(self).size() == old(self).size(),
            final(self).res() == old(self).res(),
            r.res() == old(self).res(),
            !r.is_free(),
            r.slot() == old(self).next_slot(),
            final(self).free_slots() == old(self).free_after_allocate(),
            final(self).pages() == old(self).pages_after_allocate(),
    {
        if self.free.len() == 0 {
            self.alloc_page();
            proof {
                assert(self.free@ =~= page_slots(self.size as nat, (self.pages - 1) as nat));
                assert(self.size * self.size > 0) by (nonlinear_arith)
                    requires
                        self.size >= 1,
                ;
            }
        }
        let index = self.free.pop().unwrap();
        AtlasRegion { index, res: self.res, free: false }
    }

    /// Give a region back, so that it is handed out again.
    pub fn remove(&mut self, r: AtlasRegion)
        ensures
            final(self).size() == old(self).size(),
            final(self).res() == old(self).res(),
            final(self).pages() == old(self).pages(),
            final(self).free_slots() == old(self).free_slots().push(r.slot()),
            old(self).wf() ==> final(self).wf(),
    {
        let mut r = r;
        self.free.push(r.index);
        r.free = true;
    }
}

impl AtlasRegion {
    /// The slot of the region: its column, row and page.
    pub closed spec fn slot(&self) -> V3u {
        self.index
    }

    /// The resolution of the page's tiles that this region was cut with.
    pub closed spec fn res(&self) -> nat {
        self.res as nat
    }

    /// The region was given back to its atlas.
    pub closed spec fn is_free(&self) -> bool {
        self.free
    }

    /// The whole region, padding included, in pixels of its page.
    pub fn rect(&self) -> (r: Rect)
        requires
            self.res() * self.slot().x <= i32::MAX,
            self.res() * self.slot().y <= i32::MAX,
            self.res() <= i32::MAX,
        ensures
            r.pos.x == self.res() * self.slot().x,
            r.pos.y == self.res() * self.slot().y,
            r.size.x == self.res(),
            r.size.y == self.res(),
    {
        let pos = V2i { x: (self.res * self.index.x) as i32, y: (self.res * self.index.y) as i32 };
        let size = V2i { x: self.res as i32, y: self.res as i32 };
        Rect { pos, size }
    }

    /// The smaller rectangle with the padding removed.
    pub fn rect_padded(&self) -> (r: Rect)
        requires
            self.res() * self.slot().x + PADDING <= i32::MAX,
            self.res() * self.slot().y + PADDING <= i32::MAX,
            2 * PADDING <= self.res() <= i32::MAX,
        ensures
            r.pos.x == self.res() * self.slot().x + PADDING,
            r.pos.y == self.res() * self.slot().y + PADDING,
            r.size.x == self.res() - 2 * PADDING,
            r.size.y == self.res() - 2 * PADDING,
    {
        let pos = V2i {
            x: (self.res * self.index.x + PADDING) as i32,
            y: (self.res * self.index.y + PADDING) as i32,
        };
        let size = V2i { x: (self.res - PADDING * 2) as i32, y: (self.res - PADDING * 2) as i32 };
        Rect { pos, size }
    }
}

/// Giving back the region that `allocate` handed out from a non-empty free
/// list leaves the free list as it was.
pub proof fn law_remove_undoes_allocate(a: Atlas)
    requires
        a.free_slots().len() > 0,
    ensures
        a.free_after_allocate().push(a.next_slot()) == a.free_slots(),
        a.pages_after_allocate() == a.pages(),
{
    assert(a.free_after_allocate().push(a.next_slot()) =~= a.free_slots());
}

/// Every slot of a new page lies on that page.
pub proof fn lemma_page_slots_in_bounds(size: nat, page: nat, k: int)
    requires
        1 <= size <= 64,
        page < u32::MAX,
        0 <= k < size * size,
    ensures
        slot_in_bounds(page_slots(size, page)[k], size, page + 1),
        page_slots(size, page)[k].z == page,
{
    assert(k % (size as int) < size && k / (size as int) < size) by (nonlinear_arith)
        requires
            0 <= k < size * size,
            size >= 1,
    ;
    assert(size * size <= 4096) by (nonlinear_arith)
        requires
            size <= 64,
    ;
}

/// An atlas hands out only slots of pages it has made: if every free slot
/// lies on a made page, the slot handed out does, and so do the free slots
/// afterwards.
pub proof fn law_allocate_in_bounds(a: Atlas)
    requires
        a.wf(),
        a.slots_in_bounds(),
        a.free_slots().len() > 0 || a.pages() < u32::MAX,
    ensures
        slot_in_bounds(a.next_slot(), a.size(), a.pages_after_allocate()),
        forall|k: int|
            0 <= k < a.free_after_allocate().len() ==> slot_in_bounds(
                #[trigger] a.free_after_allocate()[k],
                a.size(),
                a.pages_after_allocate(),
            ),
{
    a.lemma_wf_bounds();
    if a.free_slots().len() > 0 {
        assert(slot_in_bounds(a.free_slots()[a.free_slots().len() - 1], a.size(), a.pages()));
    } else {
        let n = a.size() * a.size();
        assert(n >= 1) by (nonlinear_arith)
            requires
                a.size() >= 1,
                n == a.size() * a.size(),
        ;
        lemma_page_slots_in_bounds(a.size(), a.pages(), n - 1);
        assert forall|k: int| 0 <= k < a.free_after_allocate().len() implies slot_in_bounds(
            #[trigger] a.free_after_allocate()[k],
            a.size(),
            a.pages_after_allocate(),
        ) by {
            lemma_page_slots_in_bounds(a.size(), a.pages(), k);
        }
    }
}

/// Giving back a region of a made page keeps every free slot on a made page.
pub proof fn law_remove_in_bounds(a: Atlas, r: AtlasRegion)
    requires
        a.slots_in_bounds(),
        slot_in_bounds(r.slot(), a.size(), a.pages()),
    ensures
        forall|k: int|
            0 <= k < a.free_slots().push(r.slot()).len() ==> slot_in_bounds(
                #[trigger] a.free_slots().push(r.slot())[k],
                a.size(),
                a.pages(),
            ),
{
    assert forall|k: int| 0 <= k < a.free_slots().push(r.slot()).len() implies slot_in_bounds(
        #[trigger] a.free_slots().push(r.slot())[k],
        a.size(),
        a.pages(),
    ) by {
        if k < a.free_slots().len() {
            assert(a.free_slots().push(r.slot())[k] == a.free_slots()[k]);
        }
    }
}

} // verus!
