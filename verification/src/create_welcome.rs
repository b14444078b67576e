//! The welcome banner: a round avatar blended onto a background.
use crate::error::RenderError;
use crate::imaging::{composite, overlaid, resample, resize_fits, Filter};
use crate::mask::{create_round_avatar, is_round_avatar, round_avatar_fits};
use crate::pixel::{comes_before, PixelBuffer, Raster};
use vstd::arithmetic::div_mod::{
    lemma_div_by_multiple, lemma_div_is_ordered, lemma_div_pos_is_pos, lemma_fundamental_div_mod,
    lemma_mod_bound,
};
use vstd::prelude::*;

verus! {

/// How far the avatar is moved left and up from the point asked for.
pub const ANCHOR_SHIFT: u32 = 10;

/// A background pixel is painted over only while its alpha is below this.
pub const ALPHA_THRESHOLD: u8 = 127;

/// A coordinate moved back by the anchor shift, and no further than zero.
pub open spec fn shifted(coord: int) -> int {
    if coord >= ANCHOR_SHIFT {
        coord - ANCHOR_SHIFT
    } else {
        0
    }
}

/// The coordinate at which the avatar is anchored for a requested `coord`.
pub fn adjusted_anchor(coord: u32) -> (anchor: u32)
    ensures
        anchor == shifted(coord as int),
{
    if coord >= ANCHOR_SHIFT {
        coord - ANCHOR_SHIFT
    } else {
        0
    }
}

/// `background` after `top`, anchored at `(ax, ay)`, was painted into its
/// holes: a background pixel under `top` takes the pixel of `top` if its own
/// alpha is below the threshold, and every other pixel stays.
pub open spec fn painted(background: Raster, top: Raster, ax: int, ay: int) -> Raster {
    Raster::build(
        background.width,
        background.height,
        |cx: int, cy: int|
            if top.contains(cx - ax, cy - ay) && background.at(cx, cy).a < ALPHA_THRESHOLD {
                top.at(cx - ax, cy - ay)
            } else {
                background.at(cx, cy)
            },
    )
}

/// The space left on an axis of length `total` from `start` on, zero where
/// `start` lies beyond the end.
pub open spec fn room(total: int, start: int) -> int {
    if start <= total {
        total - start
    } else {
        0
    }
}

/// Whether a `width` by `height` picture anchored at `(ax, ay)` reaches
/// beyond a background of `bg_width` by `bg_height`.
pub open spec fn overflows(
    bg_width: int,
    bg_height: int,
    ax: int,
    ay: int,
    width: int,
    height: int,
) -> bool {
    ax + width > bg_width || ay + height > bg_height
}

/// Whether the horizontal scale factor `room_x / width` is the smaller of the
/// two, or equal to the vertical one `room_y / height`, for a picture with
/// sides above zero.
pub open spec fn width_limits(room_x: int, room_y: int, width: int, height: int) -> bool {
    room_x * height <= room_y * width
}

/// The size at which a `width` by `height` picture anchored at `(ax, ay)` is
/// drawn. Where it fits it keeps its size. Otherwise both sides are
/// multiplied by the smaller of `room_x / width` and `room_y / height` and
/// rounded down; a picture with an empty side then has no size at all.
pub open spec fn fitted_size(
    bg_width: int,
    bg_height: int,
    ax: int,
    ay: int,
    width: int,
    height: int,
) -> (int, int) {
    let room_x = room(bg_width, ax);
    let room_y = room(bg_height, ay);
    if !overflows(bg_width, bg_height, ax, ay, width, height) {
        (width, height)
    } else if width <= 0 || height <= 0 {
        (0, 0)
    } else if width_limits(room_x, room_y, width, height) {
        ((width * room_x) / width, (height * room_x) / width)
    } else {
        ((width * room_y) / height, (height * room_y) / height)
    }
}

/// Whether `out` can be the background `background` after `avatar` was placed
/// at the requested point `(x, y)`. The avatar is first painted into the
/// holes of the background at the shifted anchor. Where it fits, it is then
/// composited there at full size. Where it does not, what is composited is
/// some picture of the fitted size.
pub open spec fn is_placement(
    background: Raster,
    avatar: Raster,
    x: int,
    y: int,
    out: Raster,
) -> bool {
    let ax = shifted(x);
    let ay = shifted(y);
    let under = painted(background, avatar, ax, ay);
    let size = fitted_size(
        background.width as int,
        background.height as int,
        ax,
        ay,
        avatar.width as int,
        avatar.height as int,
    );
    if !overflows(
        background.width as int,
        background.height as int,
        ax,
        ay,
        avatar.width as int,
        avatar.height as int,
    ) {
        out == overlaid(under, avatar, ax, ay)
    } else {
        exists|scaled: Raster|
            scaled.wf() && scaled.width == size.0 && scaled.height == size.1 && out == #[trigger] overlaid(
                under,
                scaled,
                ax,
                ay,
            )
    }
}

/// Whether a `width` by `height` avatar can be placed at the requested point
/// `(x, y)` of a background of `bg_width` by `bg_height`: an avatar that fits
/// always can, and one that must be scaled can where the scaled picture can
/// be held in memory.
pub open spec fn placement_fits(
    bg_width: int,
    bg_height: int,
    x: int,
    y: int,
    width: int,
    height: int,
) -> bool {
    let size = fitted_size(bg_width, bg_height, shifted(x), shifted(y), width, height);
    overflows(bg_width, bg_height, shifted(x), shifted(y), width, height) ==> resize_fits(
        width as nat,
        size.0 as nat,
        size.1 as nat,
    )
}

/// Paints `top`, anchored at `(ax, ay)`, into the holes of `background`.
pub fn threshold_paint(background: &mut PixelBuffer, top: &PixelBuffer, ax: u32, ay: u32)
    requires
        old(background).wf(),
        top.wf(),
    ensures
        final(background).wf(),
        final(background)@ == painted(old(background)@, top@, ax as int, ay as int),
{
    broadcast use PixelBuffer::lemma_view_wf, Raster::lemma_build;

    let bg_width = background.width();
    let bg_height = background.height();
    let width = top.width();
    let height = top.height();
    let ghost start = background@;
    let ghost want = painted(start, top@, ax as int, ay as int);
    let mut y: u32 = 0;
    while y < height
        invariant
            y <= height,
            top.wf(),
            background.wf(),
            top@.width == width,
            top@.height == height,
            background@.width == bg_width,
            background@.height == bg_height,
            start.wf(),
            start.width == bg_width,
            start.height == bg_height,
            want == painted(start, top@, ax as int, ay as int),
            forall|cx: int, cy: int|
                background@.contains(cx, cy) ==> #[trigger] background@.at(cx, cy) == (if comes_before(
                    width as int,
                    cx - ax,
                    cy - ay,
                    0,
                    y as int,
                ) {
                    want.at(cx, cy)
                } else {
                    start.at(cx, cy)
                }),
        decreases height - y,
    {
        let mut x: u32 = 0;
        while x < width
            invariant
                x <= width,
                y < height,
                top.wf(),
                background.wf(),
                top@.width == width,
                top@.height == height,
                background@.width == bg_width,
                background@.height == bg_height,
                start.wf(),
                start.width == bg_width,
                start.height == bg_height,
                want == painted(start, top@, ax as int, ay as int),
                forall|cx: int, cy: int|
                    background@.contains(cx, cy) ==> #[trigger] background@.at(cx, cy) == (
                    if comes_before(width as int, cx - ax, cy - ay, x as int, y as int) {
                        want.at(cx, cy)
                    } else {
                        start.at(cx, cy)
                    }),
            decreases width - x,
        {
            let bx: u64 = ax as u64 + x as u64;
            let by: u64 = ay as u64 + y as u64;
            let ghost before = background@;
            if bx < bg_width as u64 && by < bg_height as u64 {
                let alpha = background.get_pixel(bx as u32, by as u32).a;
                if alpha < ALPHA_THRESHOLD {
                    background.put_pixel(bx as u32, by as u32, top.get_pixel(x, y));
                }
            }
            assert forall|cx: int, cy: int|
                background@.contains(cx, cy) implies #[trigger] background@.at(cx, cy) == (
            if comes_before(width as int, cx - ax, cy - ay, x + 1, y as int) {
                want.at(cx, cy)
            } else {
                start.at(cx, cy)
            }) by {
                if cx != bx || cy != by {
                    assert(background@.at(cx, cy) == before.at(cx, cy));
                } else {
                    assert(before.at(cx, cy) == start.at(cx, cy));
                }
            }
            x = x + 1;
        }
        y = y + 1;
    }
    proof {
        Raster::lemma_equal(background@, want);
    }
}

/// The size at which a `width` by `height` picture anchored at `(ax, ay)` is
/// drawn on a background of `bg_width` by `bg_height`. A picture that fits
/// keeps its size; a scaled one is no larger than it was and fits into the
/// space right of and below the anchor.
pub fn fit_size(bg_width: u32, bg_height: u32, ax: u32, ay: u32, width: u32, height: u32) -> (size:
    (u32, u32))
    ensures
        (size.0 as int, size.1 as int) == fitted_size(
            bg_width as int,
            bg_height as int,
            ax as int,
            ay as int,
            width as int,
            height as int,
        ),
        !overflows(
            bg_width as int,
            bg_height as int,
            ax as int,
            ay as int,
            width as int,
            height as int,
        ) ==> size == (width, height),
        size.0 <= width,
        size.1 <= height,
        overflows(bg_width as int, bg_height as int, ax as int, ay as int, width as int, height as int)
            ==> size.0 <= room(bg_width as int, ax as int) && size.1 <= room(
            bg_height as int,
            ay as int,
        ),
{
    let right: u64 = ax as u64 + width as u64;
    let bottom: u64 = ay as u64 + height as u64;
    if right <= bg_width as u64 && bottom <= bg_height as u64 {
        return (width, height);
    }
    let room_x: u64 = if ax <= bg_width {
        (bg_width - ax) as u64
    } else {
        0
    };
    let room_y: u64 = if ay <= bg_height {
        (bg_height - ay) as u64
    } else {
        0
    };
    let w: u64 = width as u64;
    let h: u64 = height as u64;
    proof {
        lemma_products_bounded(room_x as int, h as int);
        lemma_products_bounded(room_y as int, w as int);
        lemma_products_bounded(w as int, room_x as int);
        lemma_products_bounded(h as int, room_x as int);
        lemma_products_bounded(w as int, room_y as int);
        lemma_products_bounded(h as int, room_y as int);
    }
    if w == 0 || h == 0 {
        (0, 0)
    } else if room_x * h <= room_y * w {
        proof {
            lemma_scaled_sides(w as int, h as int, room_x as int, room_y as int);
        }
        (((w * room_x) / w) as u32, ((h * room_x) / w) as u32)
    } else {
        proof {
            lemma_scaled_sides(h as int, w as int, room_y as int, room_x as int);
        }
        (((w * room_y) / h) as u32, ((h * room_y) / h) as u32)
    }
}

proof fn lemma_products_bounded(a: int, b: int)
    requires
        0 <= a <= u32::MAX,
        0 <= b <= u32::MAX,
    ensures
        0 <= a * b <= 0xffff_ffff * 0xffff_ffff,
{
    assert(0 <= a * b <= 0xffff_ffff * 0xffff_ffff) by (nonlinear_arith)
        requires
            0 <= a <= 0xffff_ffff,
            0 <= b <= 0xffff_ffff,
    ;
}

/// Scaling by `room / side`, the smaller of the two factors and below one,
/// and rounding down gives `room` on the limiting axis and no more than
/// `other_room` on the other, and makes neither side longer.
proof fn lemma_scaled_sides(side: int, other: int, room: int, other_room: int)
    requires
        0 < side,
        0 < other,
        0 <= room,
        0 <= other_room,
        room * other <= other_room * side,
        room < side || other_room < other,
    ensures
        (side * room) / side == room,
        room <= side,
        0 <= (other * room) / side <= other_room,
        (other * room) / side <= other,
{
    assert(room <= side) by (nonlinear_arith)
        requires
            0 < side,
            0 < other,
            0 <= room,
            0 <= other_room,
            room * other <= other_room * side,
            room < side || other_room < other,
    ;
    assert(room * other <= other * side) by (nonlinear_arith)
        requires
            room <= side,
            0 < other,
    ;
    lemma_div_by_multiple(other, side);
    lemma_div_is_ordered(room * other, other * side, side);
    assert(side * room == room * side) by (nonlinear_arith);
    assert(other * room == room * other) by (nonlinear_arith);
    lemma_div_by_multiple(room, side);
    lemma_div_by_multiple(other_room, side);
    lemma_div_is_ordered(room * other, other_room * side, side);
    assert(0 <= room * other) by (nonlinear_arith)
        requires
            0 <= room,
            0 <= other,
    ;
    lemma_div_pos_is_pos(room * other, side);
}

/// `quotient` is `numerator / denominator` rounded down.
pub open spec fn is_floor(quotient: int, numerator: int, denominator: int) -> bool {
    quotient * denominator <= numerator < (quotient + 1) * denominator
}

/// Division of a natural number by a positive one rounds down.
pub proof fn lemma_division_is_floor(numerator: int, denominator: int)
    requires
        0 <= numerator,
        0 < denominator,
    ensures
        is_floor(numerator / denominator, numerator, denominator),
{
    lemma_fundamental_div_mod(numerator, denominator);
    lemma_mod_bound(numerator, denominator);
    let quotient = numerator / denominator;
    assert(quotient * denominator == denominator * quotient) by (nonlinear_arith);
    assert((quotient + 1) * denominator == denominator * quotient + denominator)
        by (nonlinear_arith);
}

/// Where the picture sits at the origin of a background that is smaller than
/// it on some axis, the scale factor is the smaller of `bg_width / width` and
/// `bg_height / height`, and each side is its old length times that factor,
/// rounded down.
pub proof fn lemma_scale_at_origin(bg_width: int, bg_height: int, width: int, height: int)
    requires
        0 <= bg_width,
        0 <= bg_height,
        0 < width,
        0 < height,
        bg_width < width || bg_height < height,
    ensures
        ({
            let size = fitted_size(bg_width, bg_height, shifted(0), shifted(0), width, height);
            if bg_width * height <= bg_height * width {
                &&& is_floor(size.0, width * bg_width, width)
                &&& is_floor(size.1, height * bg_width, width)
            } else {
                &&& is_floor(size.0, width * bg_height, height)
                &&& is_floor(size.1, height * bg_height, height)
            }
        }),
{
    assert(0 <= width * bg_width && 0 <= height * bg_width && 0 <= width * bg_height && 0 <= height
        * bg_height) by (nonlinear_arith)
        requires
            0 <= bg_width,
            0 <= bg_height,
            0 < width,
            0 < height,
    ;
    lemma_division_is_floor(width * bg_width, width);
    lemma_division_is_floor(height * bg_width, width);
    lemma_division_is_floor(width * bg_height, height);
    lemma_division_is_floor(height * bg_height, height);
}

/// A scaled picture has no side longer than before, and fits into the room
/// right of and below its anchor.
pub proof fn lemma_fitted_size_is_within(
    bg_width: int,
    bg_height: int,
    ax: int,
    ay: int,
    width: int,
    height: int,
)
    requires
        0 <= bg_width,
        0 <= bg_height,
        0 <= ax,
        0 <= ay,
        0 <= width,
        0 <= height,
    ensures
        ({
            let size = fitted_size(bg_width, bg_height, ax, ay, width, height);
            &&& 0 <= size.0 <= width
            &&& 0 <= size.1 <= height
            &&& overflows(bg_width, bg_height, ax, ay, width, height) ==> size.0 <= room(
                bg_width,
                ax,
            ) && size.1 <= room(bg_height, ay)
        }),
{
    let room_x = room(bg_width, ax);
    let room_y = room(bg_height, ay);
    if overflows(bg_width, bg_height, ax, ay, width, height) && width > 0 && height > 0 {
        if width_limits(room_x, room_y, width, height) {
            lemma_scaled_sides(width, height, room_x, room_y);
        } else {
            lemma_scaled_sides(height, width, room_y, room_x);
        }
    }
}

/// Painting leaves every pixel alone that is opaque enough or that the
/// picture painted does not cover.
pub proof fn lemma_paint_fills_holes_only(
    background: Raster,
    top: Raster,
    ax: int,
    ay: int,
    x: int,
    y: int,
)
    requires
        background.contains(x, y),
        background.at(x, y).a >= ALPHA_THRESHOLD || !top.contains(x - ax, y - ay),
    ensures
        painted(background, top, ax, ay).at(x, y) == background.at(x, y),
{
    broadcast use Raster::lemma_build;

}

/// Placing an avatar keeps the size of the background and changes no pixel
/// outside the square that the avatar takes at full size from its anchor.
pub proof fn lemma_placement_is_local(
    background: Raster,
    avatar: Raster,
    x: int,
    y: int,
    out: Raster,
    cx: int,
    cy: int,
)
    requires
        0 <= x,
        0 <= y,
        is_placement(background, avatar, x, y, out),
        background.contains(cx, cy),
        !avatar.contains(cx - shifted(x), cy - shifted(y)),
    ensures
        out.width == background.width,
        out.height == background.height,
        out.at(cx, cy) == background.at(cx, cy),
{
    broadcast use Raster::lemma_build;

    let ax = shifted(x);
    let ay = shifted(y);
    let under = painted(background, avatar, ax, ay);
    lemma_fitted_size_is_within(
        background.width as int,
        background.height as int,
        ax,
        ay,
        avatar.width as int,
        avatar.height as int,
    );
    if overflows(
        background.width as int,
        background.height as int,
        ax,
        ay,
        avatar.width as int,
        avatar.height as int,
    ) {
        let size = fitted_size(
            background.width as int,
            background.height as int,
            ax,
            ay,
            avatar.width as int,
            avatar.height as int,
        );
        let scaled = choose|scaled: Raster|
            scaled.wf() && scaled.width == size.0 && scaled.height == size.1 && out == #[trigger] overlaid(
                under,
                scaled,
                ax,
                ay,
            );
        assert(!scaled.contains(cx - ax, cy - ay));
    }
}

/// A picture that fits on the background from its anchor on keeps its size.
pub proof fn lemma_fitting_keeps_size(
    bg_width: int,
    bg_height: int,
    ax: int,
    ay: int,
    width: int,
    height: int,
)
    requires
        ax + width <= bg_width,
        ay + height <= bg_height,
    ensures
        fitted_size(bg_width, bg_height, ax, ay, width, height) == (width, height),
{
}

/// Places `avatar` on `background` at the requested point `(x, y)`: shifts
/// the anchor, paints the avatar into the holes of the background, then
/// composites it there, scaled down with the Lanczos filter if it reaches
/// beyond the background. Fails with `TooLarge`, leaving the background as it
/// was, exactly where the scaled avatar cannot be held in memory.
pub fn place_avatar(background: &mut PixelBuffer, avatar: &PixelBuffer, x: u32, y: u32) -> (done:
    Result<(), RenderError>)
    requires
        old(background).wf(),
        avatar.wf(),
    ensures
        final(background).wf(),
        match done {
            Ok(_) => {
                &&& placement_fits(
                    old(background)@.width as int,
                    old(background)@.height as int,
                    x as int,
                    y as int,
                    avatar@.width as int,
                    avatar@.height as int,
                )
                &&& is_placement(old(background)@, avatar@, x as int, y as int, final(background)@)
            },
            Err(e) => {
                &&& e == RenderError::TooLarge
                &&& !placement_fits(
                    old(background)@.width as int,
                    old(background)@.height as int,
                    x as int,
                    y as int,
                    avatar@.width as int,
                    avatar@.height as int,
                )
                &&& *final(background) == *old(background)
            },
        },
{
    broadcast use PixelBuffer::lemma_view_wf;

    let ax = adjusted_anchor(x);
    let ay = adjusted_anchor(y);
    let bg_width = background.width();
    let bg_height = background.height();
    let size = fit_size(bg_width, bg_height, ax, ay, avatar.width(), avatar.height());
    let ghost spilling = overflows(
        background@.width as int,
        background@.height as int,
        ax as int,
        ay as int,
        avatar@.width as int,
        avatar@.height as int,
    );
    if size.0 == avatar.width() && size.1 == avatar.height() {
        threshold_paint(background, avatar, ax, ay);
        let ghost under = background@;
        composite(background, avatar, ax, ay);
        proof {
            if spilling {
                assert(background@ == overlaid(under, avatar@, ax as int, ay as int));
            }
        }
        Ok(())
    } else {
        match resample(avatar, size.0, size.1, Filter::Lanczos3) {
            Ok(scaled) => {
                threshold_paint(background, avatar, ax, ay);
                let ghost under = background@;
                composite(background, &scaled, ax, ay);
                assert(background@ == overlaid(under, scaled@, ax as int, ay as int));
                Ok(())
            },
            Err(e) => Err(e),
        }
    }
}

/// Draws `avatar` as a disc of diameter `target_size` onto `background` at
/// the requested point `(x, y)`. Fails with `TooLarge`, leaving the
/// background as it was, exactly where the round avatar, or the scaled one
/// where it must be scaled, cannot be held in memory.
pub fn combine_images(
    background: &mut PixelBuffer,
    avatar: &PixelBuffer,
    x: u32,
    y: u32,
    target_size: u32,
) -> (done: Result<(), RenderError>)
    requires
        old(background).wf(),
        avatar.wf(),
    ensures
        final(background).wf(),
        done is Ok <==> round_avatar_fits(avatar@.width, target_size as nat) && placement_fits(
            old(background)@.width as int,
            old(background)@.height as int,
            x as int,
            y as int,
            target_size as int,
            target_size as int,
        ),
        match done {
            Ok(_) => exists|round: Raster|
                is_round_avatar(avatar@, target_size as nat, round) && #[trigger] is_placement(
                    old(background)@,
                    round,
                    x as int,
                    y as int,
                    final(background)@,
                ),
            Err(e) => e == RenderError::TooLarge && *final(background) == *old(background),
        },
{
    match create_round_avatar(avatar, target_size) {
        Ok(round) => {
            let done = place_avatar(background, &round, x, y);
            proof {
                if done is Ok {
                    assert(is_placement(old(background)@, round@, x as int, y as int, background@));
                }
            }
            done
        },
        Err(e) => Err(e),
    }
}

} // verus!
