//! The disc mask that crops an avatar to a circle.
use crate::error::RenderError;
use crate::imaging::{resample, resize_fits, Filter};
use crate::pixel::{comes_before, PixelBuffer, Raster, Rgba};
use vstd::prelude::*;

verus! {

/// Opaque white, the colour of a mask pixel inside the disc.
pub open spec fn opaque_white() -> Rgba {
    Rgba { r: 255, g: 255, b: 255, a: 255 }
}

/// Transparent black, the colour of a mask pixel outside the disc.
pub open spec fn transparent() -> Rgba {
    Rgba { r: 0, g: 0, b: 0, a: 0 }
}

/// Whether the centre of pixel `(x, y)` lies within `width / 2` of the centre
/// of a `width` by `height` grid. Pixel centres sit half a pixel right of and
/// below the pixel's corner, so with all lengths doubled the squared distance
/// is compared with `width` squared.
pub open spec fn in_disc(width: int, height: int, x: int, y: int) -> bool {
    (2 * x + 1 - width) * (2 * x + 1 - width) + (2 * y + 1 - height) * (2 * y + 1 - height)
        <= width * width
}

/// The mask of a disc of diameter `size`: opaque white inside, transparent
/// outside.
pub open spec fn disc_mask(size: nat) -> Raster {
    Raster::build(
        size,
        size,
        |x: int, y: int|
            if in_disc(size as int, size as int, x, y) {
                opaque_white()
            } else {
                transparent()
            },
    )
}

/// `avatar` seen through `mask`: a pixel is kept where the mask is not fully
/// transparent; elsewhere it keeps its colour and its alpha becomes zero.
pub open spec fn masked(avatar: Raster, mask: Raster) -> Raster {
    Raster::build(
        avatar.width,
        avatar.height,
        |x: int, y: int|
            if mask.at(x, y).a > 0 {
                avatar.at(x, y)
            } else {
                avatar.at(x, y).with_alpha(0)
            },
    )
}

/// What is known of the round avatar made from `avatar` for diameter `size`:
/// it is `size` pixels square and transparent outside the disc, and where
/// `avatar` already has that size it is `avatar` seen through the disc mask.
pub open spec fn is_round_avatar(avatar: Raster, size: nat, round: Raster) -> bool {
    &&& round.wf()
    &&& round.width == size
    &&& round.height == size
    &&& forall|x: int, y: int|
        round.contains(x, y) && !in_disc(size as int, size as int, x, y) ==> (#[trigger] round.at(
            x,
            y,
        )).a == 0
    &&& avatar.width == size && avatar.height == size ==> round == masked(avatar, disc_mask(size))
}

/// Whether a round avatar of diameter `size` can be made from a picture that
/// is `source_width` pixels wide: whether that picture can be resized to
/// `size` pixels square.
pub open spec fn round_avatar_fits(source_width: nat, size: nat) -> bool {
    resize_fits(source_width, size, size)
}

fn inside_disc(width: u32, height: u32, x: u32, y: u32) -> (inside: bool)
    ensures
        inside == in_disc(width as int, height as int, x as int, y as int),
{
    let dx: i128 = 2 * (x as i128) + 1 - (width as i128);
    let dy: i128 = 2 * (y as i128) + 1 - (height as i128);
    let w: i128 = width as i128;
    assert(0 <= dx * dx <= 0x2_0000_0000 * 0x2_0000_0000) by (nonlinear_arith)
        requires
            -0x2_0000_0000 <= dx <= 0x2_0000_0000,
    ;
    assert(0 <= dy * dy <= 0x2_0000_0000 * 0x2_0000_0000) by (nonlinear_arith)
        requires
            -0x2_0000_0000 <= dy <= 0x2_0000_0000,
    ;
    assert(0 <= w * w <= 0x2_0000_0000 * 0x2_0000_0000) by (nonlinear_arith)
        requires
            0 <= w <= 0x2_0000_0000,
    ;
    dx * dx + dy * dy <= w * w
}

/// The disc mask of diameter `size`.
pub fn circular_mask(size: u32) -> (mask: PixelBuffer)
    requires
        PixelBuffer::fits(size, size),
    ensures
        mask.wf(),
        mask@ == disc_mask(size as nat),
{
    broadcast use PixelBuffer::lemma_view_wf, Raster::lemma_build;

    let white = Rgba { r: 255, g: 255, b: 255, a: 255 };
    let clear = Rgba { r: 0, g: 0, b: 0, a: 0 };
    let mut mask = PixelBuffer::from_pixel(size, size, clear);
    let ghost want = disc_mask(size as nat);
    let mut y: u32 = 0;
    while y < size
        invariant
            y <= size,
            mask.wf(),
            mask@.width == size,
            mask@.height == size,
            white == opaque_white(),
            clear == transparent(),
            want == disc_mask(size as nat),
            forall|cx: int, cy: int|
                comes_before(size as int, cx, cy, 0, y as int) ==> #[trigger] mask@.at(cx, cy)
                    == want.at(cx, cy),
        decreases size - y,
    {
        let mut x: u32 = 0;
        while x < size
            invariant
                x <= size,
                y < size,
                mask.wf(),
                mask@.width == size,
                mask@.height == size,
                white == opaque_white(),
                clear == transparent(),
                want == disc_mask(size as nat),
                forall|cx: int, cy: int|
                    comes_before(size as int, cx, cy, x as int, y as int) ==> #[trigger] mask@.at(
                        cx,
                        cy,
                    ) == want.at(cx, cy),
            decreases size - x,
        {
            let ghost before = mask@;
            if inside_disc(size, size, x, y) {
                mask.put_pixel(x, y, white);
            } else {
                mask.put_pixel(x, y, clear);
            }
            assert forall|cx: int, cy: int|
                comes_before(size as int, cx, cy, x + 1, y as int) implies #[trigger] mask@.at(
                cx,
                cy,
            ) == want.at(cx, cy) by {
                if cx != x || cy != y {
                    assert(mask@.at(cx, cy) == before.at(cx, cy));
                }
            }
            x = x + 1;
        }
        y = y + 1;
    }
    proof {
        Raster::lemma_equal(mask@, want);
    }
    mask
}

/// Applies `mask` to `avatar`, which has the same size.
pub fn apply_mask(avatar: &PixelBuffer, mask: &PixelBuffer) -> (out: PixelBuffer)
    requires
        avatar.wf(),
        mask.wf(),
        mask@.width == avatar@.width,
        mask@.height == avatar@.height,
    ensures
        out.wf(),
        out@ == masked(avatar@, mask@),
{
    broadcast use PixelBuffer::lemma_view_wf, Raster::lemma_build;

    let width = avatar.width();
    let height = avatar.height();
    let clear = Rgba { r: 0, g: 0, b: 0, a: 0 };
    let mut out = PixelBuffer::from_pixel(width, height, clear);
    let ghost want = masked(avatar@, mask@);
    let mut y: u32 = 0;
    while y < height
        invariant
            y <= height,
            avatar.wf(),
            mask.wf(),
            out.wf(),
            avatar@.width == width,
            avatar@.height == height,
            mask@.width == width,
            mask@.height == height,
            out@.width == width,
            out@.height == height,
            want == masked(avatar@, mask@),
            forall|cx: int, cy: int|
                comes_before(width as int, cx, cy, 0, y as int) ==> #[trigger] out@.at(cx, cy)
                    == want.at(cx, cy),
        decreases height - y,
    {
        let mut x: u32 = 0;
        while x < width
            invariant
                x <= width,
                y < height,
                avatar.wf(),
                mask.wf(),
                out.wf(),
                avatar@.width == width,
                avatar@.height == height,
                mask@.width == width,
                mask@.height == height,
                out@.width == width,
                out@.height == height,
                want == masked(avatar@, mask@),
                forall|cx: int, cy: int|
                    comes_before(width as int, cx, cy, x as int, y as int) ==> #[trigger] out@.at(
                        cx,
                        cy,
                    ) == want.at(cx, cy),
            decreases width - x,
        {
            let ghost before = out@;
            let pixel = avatar.get_pixel(x, y);
            if mask.get_pixel(x, y).a > 0 {
                out.put_pixel(x, y, pixel);
            } else {
                out.put_pixel(x, y, Rgba { r: pixel.r, g: pixel.g, b: pixel.b, a: 0 });
            }
            assert forall|cx: int, cy: int|
                comes_before(width as int, cx, cy, x + 1, y as int) implies #[trigger] out@.at(
                cx,
                cy,
            ) == want.at(cx, cy) by {
                if cx != x || cy != y {
                    assert(out@.at(cx, cy) == before.at(cx, cy));
                }
            }
            x = x + 1;
        }
        y = y + 1;
    }
    proof {
        Raster::lemma_equal(out@, want);
    }
    out
}

/// Resizes `avatar` to `target_size` pixels square with the Lanczos filter
/// and crops it to the disc of that diameter. Fails with `TooLarge`, and only
/// then, where the pictures involved cannot be held in memory.
pub fn create_round_avatar(avatar: &PixelBuffer, target_size: u32) -> (made: Result<
    PixelBuffer,
    RenderError,
>)
    requires
        avatar.wf(),
    ensures
        match made {
            Ok(round) => {
                &&& round_avatar_fits(avatar@.width, target_size as nat)
                &&& round.wf()
                &&& is_round_avatar(avatar@, target_size as nat, round@)
            },
            Err(e) => e == RenderError::TooLarge && !round_avatar_fits(
                avatar@.width,
                target_size as nat,
            ),
        },
{
    broadcast use PixelBuffer::lemma_view_wf, Raster::lemma_build;

    match resample(avatar, target_size, target_size, Filter::Lanczos3) {
        Ok(resized) => {
            let mask = circular_mask(target_size);
            Ok(apply_mask(&resized, &mask))
        },
        Err(e) => Err(e),
    }
}

} // verus!
