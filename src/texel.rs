use vstd::prelude::*;
use crate::raster::row_major_index;

verus! {

/// Why decoded image data cannot serve as a texture.
#[derive(Debug, PartialEq, Eq, Structural)]
pub enum TextureError {
    /// The image has no pixel.
    EmptyImage,
    /// The byte count is not three bytes per pixel.
    SizeMismatch,
}

/// A decoded image: `width * height` texels of three bytes (red, green, blue),
/// row by row from the top-left corner.
pub struct TexelGrid {
    width: u32,
    height: u32,
    data: Vec<u8>,
}

/// The smaller of `a` and `b`.
pub open spec fn min_int(a: int, b: int) -> int {
    if a <= b {
        a
    } else {
        b
    }
}

impl TexelGrid {
    pub closed spec fn width_spec(&self) -> nat {
        self.width as nat
    }

    pub closed spec fn height_spec(&self) -> nat {
        self.height as nat
    }

    /// The texel bytes, three per texel, row-major.
    pub closed spec fn bytes(&self) -> Seq<u8> {
        self.data@
    }

    /// At least one texel, and three bytes for each.
    pub open spec fn wf(&self) -> bool {
        &&& self.width_spec() >= 1
        &&& self.height_spec() >= 1
        &&& self.bytes().len() == 3 * self.width_spec() * self.height_spec()
    }

    /// The three bytes of texel `(i, j)` (column, row).
    pub open spec fn texel_at(&self, i: int, j: int) -> Seq<u8> {
        let base = 3 * row_major_index(i, j, self.width_spec() as int);
        seq![self.bytes()[base], self.bytes()[base + 1], self.bytes()[base + 2]]
    }

    /// Takes decoded RGB8 data of a `width` by `height` image.
    pub fn from_rgb8(width: u32, height: u32, data: Vec<u8>) -> (r: Result<TexelGrid, TextureError>)
        ensures
            r == Err::<TexelGrid, TextureError>(TextureError::EmptyImage) <==> (width == 0 || height
                == 0),
            r == Err::<TexelGrid, TextureError>(TextureError::SizeMismatch) <==> (width > 0 && height
                > 0 && data@.len() != 3 * width * height),
            r matches Ok(g) ==> {
                &&& g.wf()
                &&& g.width_spec() == width
                &&& g.height_spec() == height
                &&& g.bytes() == data@
            },
    {
        if width == 0 || height == 0 {
            return Err(TextureError::EmptyImage);
        }
        assert((width as int) * (height as int) <= u64::MAX) by (nonlinear_arith)
            requires
                width <= u32::MAX,
                height <= u32::MAX,
        ;
        let area = (width as u64) * (height as u64);
        let expected: u128 = 3 * (area as u128);
        assert(expected == 3 * width * height) by (nonlinear_arith)
            requires
                area == width * height,
                expected == 3 * area,
        ;
        if data.len() as u128 != expected {
            return Err(TextureError::SizeMismatch);
        }
        Ok(TexelGrid { width, height, data })
    }

    pub fn width(&self) -> (r: u32)
        ensures
            r == self.width_spec(),
    {
        self.width
    }

    pub fn height(&self) -> (r: u32)
        ensures
            r == self.height_spec(),
    {
        self.height
    }

    /// Texel `(i, j)` (column, row).
    pub fn texel(&self, i: u32, j: u32) -> (r: [u8; 3])
        requires
            self.wf(),
            i < self.width_spec(),
            j < self.height_spec(),
        ensures
            r@ == self.texel_at(i as int, j as int),
    {
        let w = self.width as usize;
        let iu = i as usize;
        let ju = j as usize;
        let len = self.data.len();
        proof {
            let wi = self.width as int;
            let hi = self.height as int;
            assert(ju * wi + iu + 1 <= wi * hi) by (nonlinear_arith)
                requires
                    iu < wi,
                    ju < hi,
            ;
            assert(3 * (ju * wi + iu) + 3 <= len) by (nonlinear_arith)
                requires
                    ju * wi + iu + 1 <= wi * hi,
                    len == 3 * wi * hi,
            ;
        }
        let base = 3 * (ju * w + iu);
        let r = [self.data[base], self.data[base + 1], self.data[base + 2]];
        assert(r@ =~= self.texel_at(i as int, j as int));
        r
    }

    /// The four texels that bilinear filtering blends at cell `(i, j)`:
    /// `(i, j)`, `(i + 1, j)`, `(i, j + 1)` and `(i + 1, j + 1)`, each coordinate
    /// clamped to the last column or row.
    pub fn bilinear_texels(&self, i: u32, j: u32) -> (r: [[u8; 3]; 4])
        requires
            self.wf(),
        ensures
            ({
                let w = self.width_spec() as int;
                let h = self.height_spec() as int;
                let i0 = min_int(i as int, w - 1);
                let j0 = min_int(j as int, h - 1);
                let i1 = min_int(i0 + 1, w - 1);
                let j1 = min_int(j0 + 1, h - 1);
                &&& r@[0]@ == self.texel_at(i0, j0)
                &&& r@[1]@ == self.texel_at(i1, j0)
                &&& r@[2]@ == self.texel_at(i0, j1)
                &&& r@[3]@ == self.texel_at(i1, j1)
            }),
    {
        let last_i = self.width - 1;
        let last_j = self.height - 1;
        let i0 = if i <= last_i {
            i
        } else {
            last_i
        };
        let j0 = if j <= last_j {
            j
        } else {
            last_j
        };
        let i1 = if i0 < last_i {
            i0 + 1
        } else {
            last_i
        };
        let j1 = if j0 < last_j {
            j0 + 1
        } else {
            last_j
        };
        [self.texel(i0, j0), self.texel(i1, j0), self.texel(i0, j1), self.texel(i1, j1)]
    }
}

} // verus!
