//! Fractal Toy: the logic of a fractal explorer that cuts the plane into
//! tiles, builds them on workers, caches them and packs their images.

pub mod algo;
pub mod asset_loader;
pub mod builder;
pub mod colorscheme;
pub mod debug;
pub mod fractal;
pub mod gpu;
pub mod math;
pub mod module;
pub mod pack;
pub mod serial;
pub mod shelf_pack;
pub mod tilemap;
pub mod ui;
pub mod ui_image;
pub mod update_loop;
pub mod util;
