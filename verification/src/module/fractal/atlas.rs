pub use crate::module::atlas::{Atlas, AtlasRegion, PADDING};
