use vstd::prelude::*;

use crate::grid::TileGrid;

verus! {

// Raster preview: one pixel per tile cell. The tile value's low three bytes
// are spread over the red, blue and green channels (red holds the lowest
// byte, blue the next, green the third) and the pixel is fully opaque. The
// encoding is deterministic and, below 24 bits, invertible for debugging.

#[verifier::external_type_specification]
#[verifier::external_body]
pub struct ExDynamicImage(image::DynamicImage);

/// The image that a raw RGBA byte buffer of the given dimensions forms.
/// Building an image from a buffer is a pure construction, so the result is
/// a function of the arguments alone.
pub uninterp spec fn image_of(width: u32, height: u32, rgba: Seq<u8>) -> image::DynamicImage;

/// The raster bytes of a row-major cell sequence: four channel bytes per
/// cell, in cell order.
pub open spec fn rgba_bytes_spec(cells: Seq<u32>) -> Seq<u8>
    decreases cells.len(),
{
    if cells.len() == 0 {
        Seq::empty()
    } else {
        rgba_bytes_spec(cells.drop_last()) + pixel_bytes(cells.last())
    }
}

/// The four RGBA channel bytes a tile value is shown as.
pub open spec fn pixel_bytes(x: u32) -> Seq<u8> {
    seq![(x & 0xff) as u8, ((x >> 8) & 0xff) as u8, ((x >> 16) & 0xff) as u8, 255u8]
}

/// The RGBA channels for one tile value: red takes bits 0 to 7, blue bits 8
/// to 15, green bits 16 to 23; the alpha channel is fully opaque.
pub fn u32conv(x: u32) -> (r: [u8; 4])
    ensures
        r@ == pixel_bytes(x),
{
    let b2: u8 = ((x >> 16) & 0xff) as u8;
    let b3: u8 = ((x >> 8) & 0xff) as u8;
    let b4: u8 = (x & 0xff) as u8;
    let r = [b4, b3, b2, 255];
    proof {
        assert(r@ =~= pixel_bytes(x));
    }
    r
}

/// The raster bytes of a whole grid: each cell's four channel bytes,
/// row-major.
pub fn grid_rgba_bytes(grid: &TileGrid) -> (r: Vec<u8>)
    requires
        grid.wf(),
    ensures
        r@ == rgba_bytes_spec(grid.cells()),
        r@.len() == 4 * grid.cells().len(),
        forall|c: int|
            0 <= c < grid.cells().len() ==> r@.subrange(4 * c, 4 * c + 4) == pixel_bytes(
                #[trigger] grid.cells()[c],
            ),
{
    let n = grid.len();
    let mut out: Vec<u8> = Vec::new();
    let mut c: usize = 0;
    proof {
        assert(grid.cells().take(0) =~= Seq::<u32>::empty());
    }
    while c < n
        invariant
            c <= n,
            n == grid.cells().len(),
            grid.wf(),
            out@.len() == 4 * c,
            out@ == rgba_bytes_spec(grid.cells().take(c as int)),
            forall|a: int|
                0 <= a < c ==> out@.subrange(4 * a, 4 * a + 4) == pixel_bytes(
                    #[trigger] grid.cells()[a],
                ),
        decreases n - c,
    {
        let v = grid.get_linear(c);
        let px = u32conv(v);
        let ghost pre = out@;
        out.push(px[0]);
        out.push(px[1]);
        out.push(px[2]);
        out.push(px[3]);
        proof {
            assert(out@ =~= pre + pixel_bytes(v));
            let t = grid.cells().take(c as int + 1);
            assert(t.drop_last() =~= grid.cells().take(c as int));
            assert(t.last() == grid.cells()[c as int]);
            assert(out@ == rgba_bytes_spec(t));
            assert forall|a: int|
                0 <= a < c + 1 implies out@.subrange(4 * a, 4 * a + 4) == pixel_bytes(
                #[trigger] grid.cells()[a],
            ) by {
                if a < c {
                    assert(out@.subrange(4 * a, 4 * a + 4) =~= pre.subrange(4 * a, 4 * a + 4));
                } else {
                    assert(out@.subrange(4 * a, 4 * a + 4) =~= pixel_bytes(v));
                }
            }
        }
        c += 1;
    }
    proof {
        assert(grid.cells().take(n as int) =~= grid.cells());
    }
    out
}

/// Relies on image's RgbaImage::from_raw and DynamicImage::ImageRgba8: a
/// buffer of exactly `width * height * 4` bytes forms the RGBA image of
/// that size whose pixel data is the buffer, one pixel per four bytes,
/// row-major.
#[verifier::external_body]
fn image_from_rgba(width: u32, height: u32, buf: Vec<u8>) -> (r: image::DynamicImage)
    requires
        buf@.len() == 4 * width * height,
    ensures
        r == image_of(width, height, buf@),
{
    image::DynamicImage::ImageRgba8(image::RgbaImage::from_raw(width, height, buf).unwrap())
}

/// Render a grid as an image for preview: one pixel per cell, colored by
/// `u32conv` from the cell's tile value.
pub fn grid_to_image(grid: &TileGrid) -> (r: image::DynamicImage)
    requires
        grid.wf(),
    ensures
        r == image_of(
            (grid.w() as u32),
            (grid.h() as u32),
            rgba_bytes_spec(grid.cells()),
        ),
{
    let buf = grid_rgba_bytes(grid);
    proof {
        grid.lemma_wf();
        assert(4 * (grid.w() * grid.h()) == 4 * grid.w() * grid.h()) by (nonlinear_arith);
    }
    image_from_rgba(grid.width(), grid.height(), buf)
}

} // verus!
