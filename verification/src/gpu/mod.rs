pub mod compute_tile;
pub mod draw_tiles;
