pub mod pos;

pub use self::pos::TilePos;
