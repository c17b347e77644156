use vstd::prelude::*;

verus! {

/// The pixels of a built tile, four bytes each.
#[derive(Debug)]
pub struct TileContent {
    pub pixels: Vec<u8>,
}

impl TileContent {
    pub fn new(pixels: Vec<u8>) -> (t: TileContent)
        ensures
            t.pixels@ == pixels@,
    {
        TileContent { pixels }
    }
}

} // verus!
