pub mod atlas;
pub mod storage;
pub mod tile;

use vstd::prelude::*;
use crate::fractal::builder::{TileParams, type_index};

verus! {

/// We are blending the textures, so each tile carries a border of this many pixels.
pub const PADDING: u32 = 1;

/// The side of a tile texture in pixels.
pub const TEXTURE_SIZE: usize = 128;

/// Something that can build textures from tile pixels
pub trait TileTextureProvider {
    type Texture;

    fn allocate(&mut self, pixels_rgba: &[u8]) -> Self::Texture;

    fn free(&mut self, texture: Self::Texture);
}

/// The change that one frame of input makes to the tile parameters: more
/// iterations, fewer iterations (never below 3), and the next kind of
/// fractal, each when its key was pressed.
pub fn apply_params_input(params: &mut TileParams, iter_inc: bool, iter_dec: bool, cycle: bool)
    requires
        iter_inc ==> old(params).iterations + 40 <= i32::MAX,
        iter_dec ==> old(params).iterations + (if iter_inc { 40int } else { 0int }) - 40 >= i32::MIN,
    ensures
        ({
            let after_inc = old(params).iterations + if iter_inc { 40int } else { 0int };
            let after_dec = if iter_dec {
                if after_inc - 40 < 3 { 3 } else { after_inc - 40 }
            } else {
                after_inc
            };
            &&& final(params).iterations == after_dec
            &&& type_index(final(params).kind) == if cycle {
                (type_index(old(params).kind) + 1) % 4
            } else {
                type_index(old(params).kind)
            }
            &&& !cycle ==> final(params).kind == old(params).kind
            &&& final(params).resolution == old(params).resolution
            &&& final(params).padding == old(params).padding
        }),
{
    if iter_inc {
        params.iterations = params.iterations + 40;
    }
    if iter_dec {
        params.iterations = params.iterations - 40;
        if params.iterations < 3 {
            params.iterations = 3;
        }
    }
    if cycle {
        params.kind = params.kind.next();
    }
}

} // verus!
