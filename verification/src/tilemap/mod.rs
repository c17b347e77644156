pub mod map;
pub mod pos;

pub use self::map::Task;
pub use self::map::TileStorage;
pub use self::pos::TilePos;
