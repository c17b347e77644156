use vstd::prelude::*;
use crate::module::fractal::TEXTURE_SIZE;

verus! {

/// The color of pixel `(x, y)` of the tile of the empty fractal, which is
/// there to look at the tiling: a gray border five pixels wide, and inside it
/// a disc whose red fades into green to the right and into blue downwards.
pub open spec fn empty_tile_px(x: int, y: int) -> Seq<u8> {
    let s = TEXTURE_SIZE as int;
    if x <= 4 || y <= 4 || x >= s - 5 || y >= s - 5 {
        seq![64u8, 64u8, 64u8, 255u8]
    } else {
        let dx = x * 2 - s;
        let dy = y * 2 - s;
        let c: int = if dx * dx + dy * dy < s * s { 255 } else { 0 };
        seq![c as u8, (x * c / s) as u8, (y * c / s) as u8, 255u8]
    }
}

/// The pixels of a tile of the empty fractal, row by row, four bytes each.
pub fn build_empty_tile() -> (pixels: Vec<u8>)
    ensures
        pixels@.len() == TEXTURE_SIZE * TEXTURE_SIZE * 4,
        forall|y: int, x: int|
            0 <= y < TEXTURE_SIZE && 0 <= x < TEXTURE_SIZE ==> #[trigger] pixels@.subrange(
                (y * TEXTURE_SIZE + x) * 4,
                (y * TEXTURE_SIZE + x) * 4 + 4,
            ) == empty_tile_px(x, y),
{
    let s: usize = TEXTURE_SIZE;
    let mut pixels: Vec<u8> = Vec::new();
    let mut y: usize = 0;
    while y < s
        invariant
            s == TEXTURE_SIZE,
            y <= s,
            pixels@.len() == y * s * 4,
            forall|yy: int, xx: int|
                0 <= yy < y && 0 <= xx < s ==> #[trigger] pixels@.subrange(
                    (yy * s + xx) * 4,
                    (yy * s + xx) * 4 + 4,
                ) == empty_tile_px(xx, yy),
        decreases s - y,
    {
        let mut x: usize = 0;
        while x < s
            invariant
                s == TEXTURE_SIZE,
                y < s,
                x <= s,
                pixels@.len() == (y * s + x) * 4,
                forall|yy: int, xx: int|
                    (0 <= yy < y && 0 <= xx < s) || (yy == y && 0 <= xx < x) ==> #[trigger] pixels@.subrange(
                        (yy * s + xx) * 4,
                        (yy * s + xx) * 4 + 4,
                    ) == empty_tile_px(xx, yy),
            decreases s - x,
        {
            let ghost before = pixels@;
            let px: [u8; 4] = if x <= 4 || y <= 4 || x >= s - 5 || y >= s - 5 {
                [64, 64, 64, 255]
            } else {
                let dx = x as i32 * 2 - s as i32;
                let dy = y as i32 * 2 - s as i32;
                assert(0 <= dx * dx <= 128 * 128 && 0 <= dy * dy <= 128 * 128) by (nonlinear_arith)
                    requires
                        -128 <= dx <= 128,
                        -128 <= dy <= 128,
                ;
                let r = dx * dx + dy * dy;
                let l = s as i32;
                let c: usize = if r < l * l {
                    255
                } else {
                    0
                };
                assert(x * c <= 127 * 255 && y * c <= 127 * 255) by (nonlinear_arith)
                    requires
                        x < 128,
                        y < 128,
                        c <= 255,
                ;
                [c as u8, (x * c / s) as u8, (y * c / s) as u8, 255]
            };
            pixels.push(px[0]);
            pixels.push(px[1]);
            pixels.push(px[2]);
            pixels.push(px[3]);
            proof {
                let i = (y * s + x) as int;
                assert(pixels@.subrange(i * 4, i * 4 + 4) =~= px@);
                assert(px@ =~= empty_tile_px(x as int, y as int));
                assert forall|yy: int, xx: int|
                    (0 <= yy < y && 0 <= xx < s) || (yy == y && 0 <= xx < x + 1) implies #[trigger] pixels@.subrange(
                        (yy * s + xx) * 4,
                        (yy * s + xx) * 4 + 4,
                    ) == empty_tile_px(xx, yy) by {
                    let j = yy * s + xx;
                    if j < i {
                        assert(j * 4 + 4 <= i * 4);
                        assert(pixels@.subrange(j * 4, j * 4 + 4) =~= before.subrange(j * 4, j * 4 + 4));
                    }
                }
            }
            x = x + 1;
        }
        proof {
            assert((y + 1) * s == y * s + s) by (nonlinear_arith);
        }
        y = y + 1;
    }
    pixels
}

} // verus!
