use vstd::prelude::*;

verus! {

/// What the mouse does with a region of the user interface this frame.
#[derive(Clone, Copy, PartialEq, Eq, Structural, Debug)]
pub struct RegionResult {
    /// the mouse is over the region, or holds it
    pub hover: bool,
    /// the region is pressed
    pub down: bool,
    /// the region was pressed just now
    pub click: bool,
}

/// Which region of the user interface the mouse is over and which one it
/// holds. Regions get ids in the order in which they are asked for each
/// frame, from 1 on; the id 0 stands for a press outside every region.
#[derive(Clone, Copy, PartialEq, Eq, Structural, Debug)]
pub struct UI {
    next_id: u32,
    hover: Option<u32>,
    hover_prev_frame: Option<u32>,
    down: Option<u32>,
    mouse_down: bool,
}

/// The answer to a region asked for with the id `id`.
pub open spec fn region_result(down: Option<u32>, mouse_down: bool, id: u32, mouse_in_rect: bool) -> RegionResult {
    let had_active = down is Some;
    let was_active = down == Some(id);
    let hover = was_active || (!had_active && mouse_in_rect);
    let pressed = was_active || (!had_active && mouse_in_rect && mouse_down);
    RegionResult { hover, down: pressed, click: pressed && !was_active }
}

impl UI {
    /// The id the next region gets.
    pub closed spec fn next_id(&self) -> u32 {
        self.next_id
    }

    /// The last region of this frame that the mouse is over.
    pub closed spec fn hover(&self) -> Option<u32> {
        self.hover
    }

    /// The region the mouse was over in the previous frame.
    pub closed spec fn hover_prev_frame(&self) -> Option<u32> {
        self.hover_prev_frame
    }

    /// The region that holds the mouse: the one that was clicked, or 0 for a
    /// press outside every region.
    pub closed spec fn down(&self) -> Option<u32> {
        self.down
    }

    /// The mouse button is down this frame.
    pub closed spec fn mouse_down(&self) -> bool {
        self.mouse_down
    }

    pub fn new() -> (ui: UI)
        ensures
            ui.next_id() == 1,
            ui.hover() is None,
            ui.hover_prev_frame() is None,
            ui.down() is None,
            !ui.mouse_down(),
    {
        UI { next_id: 1, hover: None, hover_prev_frame: None, down: None, mouse_down: false }
    }

    /// Ask for the next region of this frame, telling whether the mouse is
    /// inside it; the region takes the next id.
    pub fn region(&mut self, mouse_in_rect: bool) -> (r: RegionResult)
        requires
            old(self).next_id() < u32::MAX,
        ensures
            r == region_result(old(self).down(), old(self).mouse_down(), old(self).next_id(), mouse_in_rect),
            final(self).next_id() == old(self).next_id() + 1,
            final(self).hover() == if r.hover {
                Some(old(self).next_id())
            } else {
                old(self).hover()
            },
            final(self).down() == if r.click {
                Some(old(self).next_id())
            } else {
                old(self).down()
            },
            final(self).hover_prev_frame() == old(self).hover_prev_frame(),
            final(self).mouse_down() == old(self).mouse_down(),
    {
        let id = self.next_id;
        self.next_id = self.next_id + 1;

        let mouse_down = self.mouse_down;
        let had_active = self.down.is_some();
        let was_active = match self.down {
            Some(d) => d == id,
            None => false,
        };

        let hover = was_active || (!had_active && mouse_in_rect);
        let down = was_active || (!had_active && mouse_in_rect && mouse_down);
        let click = down && !was_active;

        if hover {
            self.hover = Some(id);
        }
        if click {
            self.down = Some(id);
        }
        RegionResult { hover, down, click }
    }

    /// The mouse is busy with the interface: over a region now or in the
    /// previous frame, holding a region, or dragging a window.
    pub fn has_input(&self, dragging_window: bool) -> (b: bool)
        ensures
            b == (self.hover() is Some || self.hover_prev_frame() is Some || (self.down() is Some
                && self.down() != Some(0u32)) || dragging_window),
    {
        let has_hover = self.hover.is_some() || self.hover_prev_frame.is_some();
        let has_down = match self.down {
            Some(d) => d != 0,
            None => false,
        };
        has_hover || has_down || dragging_window
    }

    /// End the frame and begin the next one with the mouse button as given:
    /// a press that fell on no region holds id 0, and a released button
    /// lets go of every region.
    pub fn begin_frame(&mut self, mouse_down: bool)
        ensures
            final(self).next_id() == 1,
            final(self).hover() is None,
            final(self).hover_prev_frame() == old(self).hover(),
            final(self).mouse_down() == mouse_down,
            final(self).down() == if !mouse_down {
                None
            } else if old(self).mouse_down() && old(self).down() is None {
                Some(0u32)
            } else {
                old(self).down()
            },
    {
        if self.mouse_down && self.down.is_none() {
            self.down = Some(0);
        }
        self.hover_prev_frame = self.hover.take();
        self.mouse_down = mouse_down;
        self.next_id = 1;
        if !self.mouse_down {
            self.down = None;
        }
    }
}

/// Once a region holds the mouse, every other region of the frame is neither
/// pressed nor under the mouse, and the holding region is pressed without
/// being clicked again: one press makes at most one click.
pub proof fn law_held_region_excludes_others(
    down: u32,
    mouse_down: bool,
    id: u32,
    mouse_in_rect: bool,
)
    ensures
        id != down ==> {
            let r = region_result(Some(down), mouse_down, id, mouse_in_rect);
            !r.hover && !r.down && !r.click
        },
        id == down ==> {
            let r = region_result(Some(down), mouse_down, id, mouse_in_rect);
            r.hover && r.down && !r.click
        },
{
}

/// A region is clicked exactly when nothing holds the mouse, the button is
/// down and the mouse is inside the region.
pub proof fn law_click(mouse_down: bool, id: u32, mouse_in_rect: bool)
    ensures
        region_result(None, mouse_down, id, mouse_in_rect).click == (mouse_down && mouse_in_rect),
        region_result(None, mouse_down, id, mouse_in_rect).hover == mouse_in_rect,
{
}

} // verus!
