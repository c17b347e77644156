use vstd::prelude::*;

verus! {

/// The fonts text can be drawn in.
#[derive(Debug, Copy, Clone, PartialEq, Eq, Structural)]
pub enum FontType {
    Normal,
    /// for debug text
    Mono,
}

/// Where text goes relative to the point it is drawn at, along one axis.
#[derive(Debug, Copy, Clone, PartialEq, Eq, Structural)]
pub enum TextAlignment {
    Left,
    Center,
    Right,
}

/// An asset, known by its id.
pub struct Data {
    id: u32,
}

} // verus!
