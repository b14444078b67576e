//! The imaging operations that this library takes from the `image` crate:
//! decoding, resampling and alpha compositing. Their contracts are trusted.
use crate::error::RenderError;
use crate::pixel::{PixelBuffer, Raster, Rgba};
use vstd::prelude::*;

verus! {

/// The error type of the `image` crate, carried through as an opaque value.
#[verifier::external_type_specification]
#[verifier::external_body]
pub struct ExImageError(image::ImageError);

/// A decoded picture of the `image` crate, in whatever pixel format its file
/// had, carried through as an opaque value.
#[verifier::external_type_specification]
#[verifier::external_body]
pub struct ExDynamicImage(image::DynamicImage);

/// The sampling filters that the library resizes with.
#[derive(Clone, Copy, Debug, PartialEq, Eq, Structural)]
pub enum Filter {
    /// Nearest neighbour.
    Nearest,
    /// Lanczos with window 3.
    Lanczos3,
}

/// What `Rgba<u8>::blend` of the `image` crate leaves in the lower pixel
/// `under` when the upper pixel `over` is neither transparent nor opaque.
pub uninterp spec fn blended(under: Rgba, over: Rgba) -> Rgba;

/// The pixels of `picture` as RGBA with eight bits a channel, which is what
/// `DynamicImage::to_rgba8` gives.
pub uninterp spec fn rgba_of(picture: image::DynamicImage) -> Raster;

/// The picture that `image::imageops::resize` makes of `source` for the size
/// `width` by `height` with the nearest-neighbour filter.
pub uninterp spec fn resized_nearest(source: Raster, width: nat, height: nat) -> Raster;

/// Whether a picture that is `source_width` pixels wide can be resized to
/// `width` by `height`: the result, with four bytes a pixel, and the picture
/// in between, `source_width` by `height` with sixteen bytes a pixel, must
/// each fit in a vector.
pub open spec fn resize_fits(source_width: nat, width: nat, height: nat) -> bool {
    4 * (width * height) <= isize::MAX && 16 * (source_width * height) <= isize::MAX
}

/// Source-over compositing of one pixel: a transparent `over` leaves `under`
/// as it is, an opaque one replaces it, and anything between is blended.
pub open spec fn source_over(under: Rgba, over: Rgba) -> Rgba {
    if over.a == 0 {
        under
    } else if over.a == 255 {
        over
    } else {
        blended(under, over)
    }
}

/// `bottom` with `top` composited onto it, the top-left corner of `top` at
/// `(x, y)`. Whatever of `top` falls outside `bottom` is cut off.
pub open spec fn overlaid(bottom: Raster, top: Raster, x: int, y: int) -> Raster {
    Raster::build(
        bottom.width,
        bottom.height,
        |cx: int, cy: int|
            if top.contains(cx - x, cy - y) {
                source_over(bottom.at(cx, cy), top.at(cx - x, cy - y))
            } else {
                bottom.at(cx, cy)
            },
    )
}

/// Calls `image::load_from_memory`. Nothing is claimed of the outcome: the
/// decoders choose their arithmetic by the processor they run on, so the same
/// bytes need not give the same pixels everywhere.
#[verifier::external_body]
fn load(bytes: &[u8]) -> (loaded: Result<image::DynamicImage, image::ImageError>) {
    image::load_from_memory(bytes)
}

/// Calls `GenericImageView::dimensions` on a decoded picture. Trusted: the
/// result is the width and the height of the picture.
#[verifier::external_body]
fn picture_size(picture: &image::DynamicImage) -> (size: (u32, u32))
    ensures
        size.0 == rgba_of(*picture).width,
        size.1 == rgba_of(*picture).height,
{
    image::GenericImageView::dimensions(picture)
}

/// Calls `DynamicImage::to_rgba8`. Trusted: the buffer holds the pixels of
/// the picture. The `requires` keeps the buffer within what a vector can
/// hold.
#[verifier::external_body]
fn to_rgba(picture: &image::DynamicImage) -> (out: PixelBuffer)
    requires
        4 * (rgba_of(*picture).width * rgba_of(*picture).height) <= isize::MAX,
    ensures
        out.wf(),
        out@ == rgba_of(*picture),
{
    let buffer = picture.to_rgba8();
    PixelBuffer { width: buffer.width(), height: buffer.height(), data: buffer.into_raw() }
}

/// Calls `image::imageops::resize`. Trusted: the result has the size asked
/// for; where that is the size of `source` it is a copy of `source`; and with
/// the nearest-neighbour filter it is the picture named `resized_nearest`.
/// The Lanczos filter evaluates a sine, whose last digits the standard
/// library leaves open, so nothing more is claimed of its pixels. The
/// `requires` keeps the result and the intermediate picture of the call
/// within what a vector can hold.
#[verifier::external_body]
fn resize(source: &PixelBuffer, width: u32, height: u32, filter: Filter) -> (out: PixelBuffer)
    requires
        source.wf(),
        resize_fits(source@.width, width as nat, height as nat),
    ensures
        out.wf(),
        out@.width == width,
        out@.height == height,
        source@.width == width && source@.height == height ==> out@ == source@,
        filter == Filter::Nearest ==> out@ == resized_nearest(source@, width as nat, height as nat),
{
    let kind = match filter {
        Filter::Nearest => image::imageops::FilterType::Nearest,
        Filter::Lanczos3 => image::imageops::FilterType::Lanczos3,
    };
    let view = image::ImageBuffer::<image::Rgba<u8>, &[u8]>::from_raw(
        source.width,
        source.height,
        source.data.as_slice(),
    ).unwrap();
    let out = image::imageops::resize(&view, width, height, kind);
    PixelBuffer { width: out.width(), height: out.height(), data: out.into_raw() }
}

/// Calls `image::imageops::overlay` with `top` at `(x, y)`. Trusted: the
/// size of `bottom` stays; a pixel of `bottom` that `top` covers stays as it
/// was under a transparent pixel of `top`, becomes the pixel of `top` where
/// that is opaque, and is blended with it otherwise; the pixels that `top`
/// does not cover stay as they were.
#[verifier::external_body]
fn overlay(bottom: &mut PixelBuffer, top: &PixelBuffer, x: u32, y: u32)
    requires
        old(bottom).wf(),
        top.wf(),
    ensures
        final(bottom).wf(),
        final(bottom)@.width == old(bottom)@.width,
        final(bottom)@.height == old(bottom)@.height,
        forall|cx: int, cy: int|
            old(bottom)@.contains(cx, cy) ==> #[trigger] final(bottom)@.at(cx, cy) == {
                let under = old(bottom)@.at(cx, cy);
                let over = top@.at(cx - x, cy - y);
                if !top@.contains(cx - x, cy - y) || over.a == 0 {
                    under
                } else if over.a == 255 {
                    over
                } else {
                    blended(under, over)
                }
            },
{
    let (width, height) = (bottom.width, bottom.height);
    let mut under = image::ImageBuffer::<image::Rgba<u8>, &mut [u8]>::from_raw(
        width,
        height,
        bottom.data.as_mut_slice(),
    ).unwrap();
    let over = image::ImageBuffer::<image::Rgba<u8>, &[u8]>::from_raw(
        top.width,
        top.height,
        top.data.as_slice(),
    ).unwrap();
    image::imageops::overlay(&mut under, &over, i64::from(x), i64::from(y));
}

/// Composites `top` onto `bottom` with its top-left corner at `(x, y)`.
pub fn composite(bottom: &mut PixelBuffer, top: &PixelBuffer, x: u32, y: u32)
    requires
        old(bottom).wf(),
        top.wf(),
    ensures
        final(bottom).wf(),
        final(bottom)@ == overlaid(old(bottom)@, top@, x as int, y as int),
{
    broadcast use PixelBuffer::lemma_view_wf;

    overlay(bottom, top, x, y);
    proof {
        Raster::lemma_equal(bottom@, overlaid(old(bottom)@, top@, x as int, y as int));
    }
}

/// Whether a picture that is `source_width` pixels wide can be resized to
/// `width` by `height`.
pub fn can_resize(source_width: u32, width: u32, height: u32) -> (fits: bool)
    ensures
        fits == resize_fits(source_width as nat, width as nat, height as nat),
{
    assert(0 <= (width as int) * (height as int) <= 0xffff_ffff * 0xffff_ffff) by (nonlinear_arith)
        requires
            0 <= width <= 0xffff_ffff,
            0 <= height <= 0xffff_ffff,
    ;
    assert(0 <= (source_width as int) * (height as int) <= 0xffff_ffff * 0xffff_ffff)
        by (nonlinear_arith)
        requires
            0 <= source_width <= 0xffff_ffff,
            0 <= height <= 0xffff_ffff,
    ;
    let result: u128 = (width as u128) * (height as u128);
    let between: u128 = (source_width as u128) * (height as u128);
    4 * result <= isize::MAX as u128 && 16 * between <= isize::MAX as u128
}

/// Resizes `source` to `width` by `height` with `filter`. Fails with
/// `TooLarge` exactly where the pictures involved cannot be held in memory.
/// The result has the size asked for. A picture that has that size already
/// is copied, and with the nearest-neighbour filter the result is
/// `resized_nearest`.
pub fn resample(source: &PixelBuffer, width: u32, height: u32, filter: Filter) -> (made: Result<
    PixelBuffer,
    RenderError,
>)
    requires
        source.wf(),
    ensures
        match made {
            Ok(out) => {
                &&& resize_fits(source@.width, width as nat, height as nat)
                &&& out.wf()
                &&& out@.width == width
                &&& out@.height == height
                &&& source@.width == width && source@.height == height ==> out@ == source@
                &&& filter == Filter::Nearest ==> out@ == resized_nearest(
                    source@,
                    width as nat,
                    height as nat,
                )
            },
            Err(e) => e == RenderError::TooLarge && !resize_fits(
                source@.width,
                width as nat,
                height as nat,
            ),
        },
{
    if can_resize(source.width(), width, height) {
        Ok(resize(source, width, height, filter))
    } else {
        Err(RenderError::TooLarge)
    }
}

/// The pixels of a decoded picture as a buffer. Fails with `TooLarge` exactly
/// where they cannot be held.
fn buffer_of(picture: &image::DynamicImage) -> (made: Result<PixelBuffer, RenderError>)
    ensures
        match made {
            Ok(out) => out.wf() && out@ == rgba_of(*picture),
            Err(e) => e == RenderError::TooLarge && 4 * (rgba_of(*picture).width * rgba_of(
                *picture,
            ).height) > isize::MAX,
        },
{
    let size = picture_size(picture);
    if PixelBuffer::can_hold(size.0, size.1) {
        Ok(to_rgba(picture))
    } else {
        Err(RenderError::TooLarge)
    }
}

/// Decodes the bytes of a picture. Fails with `Decode` where the decoder
/// refuses the bytes, and with `TooLarge` where the decoded picture cannot be
/// held as RGBA. Which pictures a decoder accepts, and the pixels it makes of
/// them, are its own affair.
pub fn decode(bytes: &[u8]) -> (loaded: Result<PixelBuffer, RenderError>)
    ensures
        match loaded {
            Ok(picture) => picture.wf(),
            Err(e) => e == RenderError::Decode || e == RenderError::TooLarge,
        },
{
    match load(bytes) {
        Ok(picture) => buffer_of(&picture),
        Err(_) => Err(RenderError::Decode),
    }
}

} // verus!
