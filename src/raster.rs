use vstd::prelude::*;

verus! {

/// Position of pixel `(i, j)` (column, row) in a row-major raster `width` pixels wide.
pub open spec fn row_major_index(i: int, j: int, width: int) -> int {
    j * width + i
}

/// Column and row of the pixel stored at position `idx` of a row-major raster
/// `width` pixels wide.
pub fn pixel_of_index(idx: u32, width: u32) -> (r: (u32, u32))
    requires
        width > 0,
    ensures
        r.0 < width,
        row_major_index(r.0 as int, r.1 as int, width as int) == idx as int,
{
    let i = idx % width;
    let j = idx / width;
    proof {
        vstd::arithmetic::div_mod::lemma_fundamental_div_mod(idx as int, width as int);
        vstd::arithmetic::mul::lemma_mul_is_commutative(j as int, width as int);
    }
    (i, j)
}

/// Number of pixels of a `width` by `height` raster, where it fits in a `u32`.
pub fn pixel_count(width: u32, height: u32) -> (r: Option<u32>)
    ensures
        r == (if width * height <= u32::MAX {
            Some((width * height) as u32)
        } else {
            None::<u32>
        }),
{
    width.checked_mul(height)
}

/// Flattens one RGB triple per pixel into a byte buffer, three bytes per
/// pixel, in pixel order.
pub fn pack_rgb(pixels: &Vec<[u8; 3]>) -> (r: Vec<u8>)
    requires
        3 * pixels@.len() <= usize::MAX,
    ensures
        r@.len() == 3 * pixels@.len(),
        forall|k: int, c: int|
            0 <= k < pixels@.len() && 0 <= c < 3 ==> r@[3 * k + c] == #[trigger] pixels@[k]@[c],
{
    let mut buf: Vec<u8> = Vec::new();
    let mut k: usize = 0;
    while k < pixels.len()
        invariant
            k <= pixels@.len(),
            3 * pixels@.len() <= usize::MAX,
            buf@.len() == 3 * k,
            forall|q: int, c: int|
                0 <= q < k && 0 <= c < 3 ==> buf@[3 * q + c] == #[trigger] pixels@[q]@[c],
        decreases pixels@.len() - k,
    {
        let rgb = pixels[k];
        buf.push(rgb[0]);
        buf.push(rgb[1]);
        buf.push(rgb[2]);
        k = k + 1;
    }
    buf
}

} // verus!
