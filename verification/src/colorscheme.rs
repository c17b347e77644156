use vstd::prelude::*;

verus! {

/// The side of a color scheme's table, in cells.
pub const SCHEME_SIDE: usize = 32;

/// A table of `SCHEME_SIDE` by `SCHEME_SIDE` colors, row by row, four bytes
/// per color: red, green, blue and alpha.
pub struct ColorScheme {
    width: usize,
    height: usize,
    data: Vec<u8>,
}

impl ColorScheme {
    #[verifier::type_invariant]
    spec fn table_fits(&self) -> bool {
        &&& self.width == SCHEME_SIDE
        &&& self.height == SCHEME_SIDE
        &&& self.data@.len() == SCHEME_SIDE * SCHEME_SIDE * 4
    }

    pub closed spec fn width(&self) -> nat {
        self.width as nat
    }

    pub closed spec fn height(&self) -> nat {
        self.height as nat
    }

    /// The bytes of the table.
    pub closed spec fn table(&self) -> Seq<u8> {
        self.data@
    }

    /// The scheme of the colors `data`; the table is computed with floating
    /// point, by whoever makes the scheme.
    pub fn new(data: Vec<u8>) -> (c: ColorScheme)
        requires
            data@.len() == SCHEME_SIDE * SCHEME_SIDE * 4,
        ensures
            c.width() == SCHEME_SIDE,
            c.height() == SCHEME_SIDE,
            c.table() == data@,
    {
        ColorScheme { width: SCHEME_SIDE, height: SCHEME_SIDE, data }
    }

    /// The color of the cell `(x, y)`, the table repeating in both
    /// directions, with red and blue swapped.
    pub fn get_px(&self, x: usize, y: usize) -> (px: [u8; 3])
        ensures
            ({
                let i = ((y as nat % self.height()) * self.width() + x as nat % self.width()) as int;
                px@ == seq![self.table()[i * 4 + 2], self.table()[i * 4 + 1], self.table()[i * 4]]
            }),
    {
        proof {
            use_type_invariant(self);
        }
        let x = x % self.width;
        let y = y % self.height;
        proof {
            assert(y * 32 + x < 1024) by (nonlinear_arith)
                requires
                    x < 32,
                    y < 32,
            ;
        }
        let i = y * self.width + x;
        let px = [self.data[i * 4 + 2], self.data[i * 4 + 1], self.data[i * 4]];
        proof {
            assert(px@ =~= seq![self.data@[i * 4 + 2], self.data@[i * 4 + 1], self.data@[i * 4]]);
        }
        px
    }
}

} // verus!
