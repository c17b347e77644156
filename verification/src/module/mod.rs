pub mod atlas;
pub mod fractal;
pub mod input;
pub mod platform;
pub mod ui;
