pub use crate::tilemap::map::{Task, TileStorage};
