use vstd::prelude::*;

verus! {

/// The number of tile images the graphics card holds at once.
pub const MAX_TILES: u32 = 1024;

/// The life of a slot: `Free -> Used -> Old -> Free`.
#[derive(PartialEq, Eq, Structural, Clone, Copy, Debug)]
pub enum SlotMode {
    Free,
    /// drawn this frame
    Used,
    /// drawn last frame, not yet this one
    Old,
}

/// A place for one tile image on the graphics card, and the id of the image
/// it holds.
#[derive(PartialEq, Eq, Structural, Clone, Copy, Debug)]
pub struct TileSlot {
    pub id: u32,
    pub mode: SlotMode,
}

/// The first position in `s` whose slot holds the image `id`, whatever its mode.
pub open spec fn first_with_id(s: Seq<TileSlot>, id: u32) -> Option<int>
    decreases s.len(),
{
    if s.len() == 0 {
        None
    } else {
        match first_with_id(s.drop_last(), id) {
            Some(i) => Some(i),
            None => if s.last().id == id {
                Some(s.len() - 1)
            } else {
                None
            },
        }
    }
}

/// The first position in `s` of a free slot.
pub open spec fn first_free(s: Seq<TileSlot>) -> Option<int>
    decreases s.len(),
{
    if s.len() == 0 {
        None
    } else {
        match first_free(s.drop_last()) {
            Some(i) => Some(i),
            None => if s.last().mode == SlotMode::Free {
                Some(s.len() - 1)
            } else {
                None
            },
        }
    }
}

/// The mode of a slot one frame later.
pub open spec fn aged(m: SlotMode) -> SlotMode {
    match m {
        SlotMode::Used => SlotMode::Old,
        SlotMode::Old => SlotMode::Free,
        SlotMode::Free => SlotMode::Free,
    }
}

proof fn lemma_first_with_id(s: Seq<TileSlot>, id: u32, i: int)
    requires
        0 <= i <= s.len(),
        forall|j: int| 0 <= j < i ==> (#[trigger] s[j]).id != id,
    ensures
        i < s.len() && s[i].id == id ==> first_with_id(s, id) == Some(i),
        i == s.len() ==> first_with_id(s, id) is None,
    decreases s.len(),
{
    if s.len() > 0 {
        if i < s.len() {
            if i < s.len() - 1 {
                lemma_first_with_id(s.drop_last(), id, i);
            } else {
                lemma_first_with_id(s.drop_last(), id, i);
            }
        } else {
            lemma_first_with_id(s.drop_last(), id, i - 1);
        }
    }
}

proof fn lemma_first_free(s: Seq<TileSlot>, i: int)
    requires
        0 <= i <= s.len(),
        forall|j: int| 0 <= j < i ==> (#[trigger] s[j]).mode != SlotMode::Free,
    ensures
        i < s.len() && s[i].mode == SlotMode::Free ==> first_free(s) == Some(i),
        i == s.len() ==> first_free(s) is None,
    decreases s.len(),
{
    if s.len() > 0 {
        if i < s.len() {
            lemma_first_free(s.drop_last(), i);
        } else {
            lemma_first_free(s.drop_last(), i - 1);
        }
    }
}

proof fn lemma_first_bounds(s: Seq<TileSlot>, id: u32)
    ensures
        first_with_id(s, id) matches Some(i) ==> 0 <= i < s.len() && s[i].id == id,
        first_free(s) matches Some(i) ==> 0 <= i < s.len() && s[i].mode == SlotMode::Free,
    decreases s.len(),
{
    if s.len() > 0 {
        lemma_first_bounds(s.drop_last(), id);
    }
}

/// The slots of the tile images on the graphics card. A tile drawn in a
/// frame takes the slot that holds its image, or else the first free slot,
/// into which its image is then uploaded; slots that are not drawn for two
/// frames become free.
pub struct TileSlots {
    slots: Vec<TileSlot>,
}

impl View for TileSlots {
    type V = Seq<TileSlot>;

    closed spec fn view(&self) -> Seq<TileSlot> {
        self.slots@
    }
}

impl TileSlots {
    /// `MAX_TILES` free slots, holding the id 0.
    pub fn new() -> (t: TileSlots)
        ensures
            t@.len() == MAX_TILES,
            forall|i: int| 0 <= i < t@.len() ==> #[trigger] t@[i] == (TileSlot { id: 0, mode: SlotMode::Free }),
    {
        let mut slots: Vec<TileSlot> = Vec::new();
        let mut i: u32 = 0;
        while i < MAX_TILES
            invariant
                i <= MAX_TILES,
                slots@.len() == i,
                forall|j: int| 0 <= j < i ==> #[trigger] slots@[j] == (TileSlot { id: 0, mode: SlotMode::Free }),
            decreases MAX_TILES - i,
        {
            slots.push(TileSlot { id: 0, mode: SlotMode::Free });
            i = i + 1;
        }
        TileSlots { slots }
    }

    /// A slot can be found for the image `id`: one holds it, or one is free.
    pub open spec fn has_room_for(&self, id: u32) -> bool {
        first_with_id(self@, id) is Some || first_free(self@) is Some
    }

    /// Whether `claim` finds a slot for the image `id`.
    pub fn can_claim(&self, id: u32) -> (b: bool)
        ensures
            b == self.has_room_for(id),
    {
        self.find_id(id).is_some() || self.find_free().is_some()
    }

    fn find_id(&self, id: u32) -> (r: Option<usize>)
        ensures
            r == (match first_with_id(self@, id) {
                Some(i) => Some(i as usize),
                None => None::<usize>,
            }),
    {
        let mut i: usize = 0;
        while i < self.slots.len()
            invariant
                i <= self@.len(),
                forall|j: int| 0 <= j < i ==> (#[trigger] self@[j]).id != id,
            decreases self@.len() - i,
        {
            if self.slots[i].id == id {
                proof {
                    lemma_first_with_id(self@, id, i as int);
                }
                return Some(i);
            }
            i = i + 1;
        }
        proof {
            lemma_first_with_id(self@, id, i as int);
        }
        None
    }

    fn find_free(&self) -> (r: Option<usize>)
        ensures
            r == (match first_free(self@) {
                Some(i) => Some(i as usize),
                None => None::<usize>,
            }),
    {
        let mut i: usize = 0;
        while i < self.slots.len()
            invariant
                i <= self@.len(),
                forall|j: int| 0 <= j < i ==> (#[trigger] self@[j]).mode != SlotMode::Free,
            decreases self@.len() - i,
        {
            if self.slots[i].mode == SlotMode::Free {
                proof {
                    lemma_first_free(self@, i as int);
                }
                return Some(i);
            }
            i = i + 1;
        }
        proof {
            lemma_first_free(self@, i as int);
        }
        None
    }

    /// Take a slot for the image `id` this frame: the first slot holding the
    /// image, marked as used, or else the first free slot, which then holds
    /// the image. Gives the slot, and whether the image must be uploaded to it.
    pub fn claim(&mut self, id: u32) -> (r: (usize, bool))
        requires
            old(self).has_room_for(id),
        ensures
            match first_with_id(old(self)@, id) {
                Some(i) => {
                    &&& r == (i as usize, false)
                    &&& final(self)@ == old(self)@.update(i, TileSlot { id, mode: SlotMode::Used })
                },
                None => {
                    let i = first_free(old(self)@)->Some_0;
                    &&& r == (i as usize, true)
                    &&& final(self)@ == old(self)@.update(i, TileSlot { id, mode: SlotMode::Used })
                },
            },
    {
        proof {
            lemma_first_bounds(self@, id);
        }
        let ix = match self.find_id(id) {
            Some(ix) => {
                self.slots.set(ix, TileSlot { id, mode: SlotMode::Used });
                return (ix, false);
            },
            None => self.find_free(),
        };
        let ix = ix.unwrap();
        self.slots.set(ix, TileSlot { id, mode: SlotMode::Used });
        (ix, true)
    }

    /// End a frame: used slots become old, and old ones free.
    pub fn age(&mut self)
        ensures
            final(self)@.len() == old(self)@.len(),
            forall|i: int|
                0 <= i < old(self)@.len() ==> #[trigger] final(self)@[i] == (TileSlot {
                    id: old(self)@[i].id,
                    mode: aged(old(self)@[i].mode),
                }),
    {
        let n = self.slots.len();
        let mut i: usize = 0;
        while i < n
            invariant
                i <= n,
                n == self@.len(),
                n == old(self)@.len(),
                forall|j: int|
                    0 <= j < i ==> #[trigger] self@[j] == (TileSlot { id: old(self)@[j].id, mode: aged(old(self)@[j].mode) }),
                forall|j: int| i <= j < n ==> #[trigger] self@[j] == old(self)@[j],
            decreases n - i,
        {
            let s = self.slots[i];
            let mode = match s.mode {
                SlotMode::Used => SlotMode::Old,
                SlotMode::Old => SlotMode::Free,
                SlotMode::Free => SlotMode::Free,
            };
            self.slots.set(i, TileSlot { id: s.id, mode });
            i = i + 1;
        }
    }
}

/// A slot drawn in a frame is not handed to another image in the next frame:
/// after `age` (whose `ensures` relates `before` and `after`) the slot is old,
/// not free, and still holds its image, so `claim` of any other image takes
/// another slot.
pub proof fn law_drawn_slot_kept_a_frame(before: Seq<TileSlot>, after: Seq<TileSlot>, i: int, other: u32)
    requires
        0 <= i < before.len(),
        before[i].mode == SlotMode::Used,
        after.len() == before.len(),
        forall|j: int|
            0 <= j < before.len() ==> #[trigger] after[j] == (TileSlot { id: before[j].id, mode: aged(before[j].mode) }),
        other != before[i].id,
    ensures
        after[i].mode == SlotMode::Old,
        after[i].id == before[i].id,
        first_free(after) != Some(i),
        first_with_id(after, other) != Some(i),
{
    lemma_first_bounds(after, other);
    assert(after[i] == (TileSlot { id: before[i].id, mode: aged(before[i].mode) }));
}

/// A slot drawn in a frame survives the end of that frame and of the next
/// one only if it is drawn again: two calls of `age` without a `claim` in
/// between free every slot.
pub proof fn law_two_frames_free(m: SlotMode)
    ensures
        aged(aged(m)) == SlotMode::Free,
{
}

} // verus!
