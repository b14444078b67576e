use avatar_cards::create_welcome::{
    adjusted_anchor, combine_images, fit_size, place_avatar, threshold_paint, ALPHA_THRESHOLD,
    ANCHOR_SHIFT,
};
use avatar_cards::error::RenderError;
use avatar_cards::imaging::{can_resize, composite, resample, Filter};
use avatar_cards::pixel::{PixelBuffer, Rgba};

const RED: Rgba = Rgba { r: 255, g: 0, b: 0, a: 255 };
const BLUE: Rgba = Rgba { r: 0, g: 0, b: 255, a: 255 };
const CLEAR: Rgba = Rgba { r: 0, g: 0, b: 0, a: 0 };

fn is_corner(x: u32, y: u32, size: u32) -> bool {
    (x == 0 || x == size - 1) && (y == 0 || y == size - 1)
}

#[test]
fn anchor_is_shifted_by_ten_and_clamped() {
    assert_eq!(ANCHOR_SHIFT, 10);
    assert_eq!(adjusted_anchor(0), 0);
    assert_eq!(adjusted_anchor(9), 0);
    assert_eq!(adjusted_anchor(10), 0);
    assert_eq!(adjusted_anchor(11), 1);
    assert_eq!(adjusted_anchor(250), 240);
    assert_eq!(adjusted_anchor(u32::MAX), u32::MAX - 10);
}

#[test]
fn paint_fills_holes_only() {
    assert_eq!(ALPHA_THRESHOLD, 127);
    let mut background = PixelBuffer::from_pixel(4, 1, CLEAR);
    background.put_pixel(1, 0, Rgba { r: 1, g: 1, b: 1, a: 126 });
    background.put_pixel(2, 0, Rgba { r: 2, g: 2, b: 2, a: 127 });
    background.put_pixel(3, 0, BLUE);
    let top = PixelBuffer::from_pixel(4, 1, RED);
    threshold_paint(&mut background, &top, 0, 0);
    assert_eq!(background.get_pixel(0, 0), RED);
    assert_eq!(background.get_pixel(1, 0), RED);
    assert_eq!(background.get_pixel(2, 0), Rgba { r: 2, g: 2, b: 2, a: 127 });
    assert_eq!(background.get_pixel(3, 0), BLUE);
}

#[test]
fn paint_is_clipped_to_the_background() {
    let mut background = PixelBuffer::from_pixel(3, 3, CLEAR);
    let top = PixelBuffer::from_pixel(5, 5, RED);
    threshold_paint(&mut background, &top, 2, 1);
    for y in 0..3 {
        for x in 0..3 {
            let want = if x >= 2 && y >= 1 { RED } else { CLEAR };
            assert_eq!(background.get_pixel(x, y), want);
        }
    }
    let mut far = PixelBuffer::from_pixel(3, 3, CLEAR);
    threshold_paint(&mut far, &top, u32::MAX, u32::MAX);
    assert_eq!(far, PixelBuffer::from_pixel(3, 3, CLEAR));
}

#[test]
fn paint_takes_each_pixel_from_its_place_in_the_top() {
    let mut background = PixelBuffer::from_pixel(4, 4, CLEAR);
    let mut top = PixelBuffer::from_pixel(2, 2, CLEAR);
    top.put_pixel(0, 0, Rgba { r: 1, g: 0, b: 0, a: 255 });
    top.put_pixel(1, 0, Rgba { r: 2, g: 0, b: 0, a: 255 });
    top.put_pixel(0, 1, Rgba { r: 3, g: 0, b: 0, a: 255 });
    top.put_pixel(1, 1, Rgba { r: 4, g: 0, b: 0, a: 0 });
    threshold_paint(&mut background, &top, 1, 2);
    assert_eq!(background.get_pixel(1, 2).r, 1);
    assert_eq!(background.get_pixel(2, 2).r, 2);
    assert_eq!(background.get_pixel(1, 3).r, 3);
    assert_eq!(background.get_pixel(2, 3), Rgba { r: 4, g: 0, b: 0, a: 0 });
    assert_eq!(background.get_pixel(0, 0), CLEAR);
    assert_eq!(background.get_pixel(3, 3), CLEAR);
}

#[test]
fn a_picture_that_fits_keeps_its_size() {
    assert_eq!(fit_size(100, 100, 0, 0, 100, 100), (100, 100));
    assert_eq!(fit_size(100, 80, 40, 30, 60, 50), (60, 50));
    assert_eq!(fit_size(100, 80, 100, 80, 0, 0), (0, 0));
    assert_eq!(fit_size(u32::MAX, u32::MAX, 0, 0, u32::MAX, u32::MAX), (u32::MAX, u32::MAX));
}

#[test]
fn at_the_origin_the_smaller_ratio_scales_both_sides() {
    // min(50/100, 80/100) = 1/2
    assert_eq!(fit_size(50, 80, 0, 0, 100, 100), (50, 50));
    // min(300/200, 30/100) = 3/10
    assert_eq!(fit_size(300, 30, 0, 0, 200, 100), (60, 30));
    // min(10/30, 10/7) = 1/3, and 7/3 is rounded down
    assert_eq!(fit_size(10, 10, 0, 0, 30, 7), (10, 2));
    // min(1/49, 5/7) = 1/49, and 7/49 is rounded down to nothing
    assert_eq!(fit_size(1, 5, 0, 0, 49, 7), (1, 0));
}

#[test]
fn away_from_the_origin_the_room_left_decides() {
    // room 30 by 60 for 100 by 100: min(30/100, 60/100)
    assert_eq!(fit_size(50, 80, 20, 20, 100, 100), (30, 30));
    // the anchor lies beyond the background: no room at all
    assert_eq!(fit_size(50, 80, 60, 0, 10, 10), (0, 0));
    assert_eq!(fit_size(50, 80, 0, 81, 10, 10), (0, 0));
    // the sum of anchor and size does not fit in 32 bits
    assert_eq!(fit_size(100, 100, u32::MAX, 0, u32::MAX, 4), (0, 0));
    assert_eq!(fit_size(100, 100, 0, 0, u32::MAX, u32::MAX), (100, 100));
    // a picture with an empty side has no size once it overflows
    assert_eq!(fit_size(100, 5, 0, 10, 5, 0), (0, 0));
}

#[test]
fn composite_replaces_under_opaque_and_keeps_under_transparent() {
    let mut bottom = PixelBuffer::from_pixel(3, 1, BLUE);
    let mut top = PixelBuffer::from_pixel(2, 1, RED);
    top.put_pixel(1, 0, Rgba { r: 9, g: 9, b: 9, a: 0 });
    composite(&mut bottom, &top, 1, 0);
    assert_eq!(bottom.get_pixel(0, 0), BLUE);
    assert_eq!(bottom.get_pixel(1, 0), RED);
    assert_eq!(bottom.get_pixel(2, 0), BLUE);
}

#[test]
fn composite_blends_what_lies_between() {
    let mut bottom = PixelBuffer::from_pixel(1, 1, Rgba { r: 0, g: 0, b: 0, a: 255 });
    let top = PixelBuffer::from_pixel(1, 1, Rgba { r: 255, g: 255, b: 255, a: 128 });
    composite(&mut bottom, &top, 0, 0);
    let out = bottom.get_pixel(0, 0);
    assert!(out.a >= 254);
    assert!(out.r == 127 || out.r == 128);
    assert_eq!(out.r, out.g);
    assert_eq!(out.r, out.b);
}

#[test]
fn composite_is_clipped_to_the_bottom() {
    let mut bottom = PixelBuffer::from_pixel(3, 3, BLUE);
    let top = PixelBuffer::from_pixel(4, 4, RED);
    composite(&mut bottom, &top, 2, 2);
    for y in 0..3 {
        for x in 0..3 {
            let want = if (x, y) == (2, 2) { RED } else { BLUE };
            assert_eq!(bottom.get_pixel(x, y), want);
        }
    }
    composite(&mut bottom, &top, 3, 0);
    composite(&mut bottom, &top, 0, 4);
    composite(&mut bottom, &top, u32::MAX, u32::MAX);
    assert_eq!(bottom.get_pixel(1, 1), BLUE);
    assert_eq!(bottom.get_pixel(2, 0), BLUE);
}

#[test]
fn avatar_on_a_transparent_background() {
    let mut background = PixelBuffer::from_pixel(20, 20, CLEAR);
    let avatar = PixelBuffer::from_pixel(4, 4, RED);
    assert_eq!(combine_images(&mut background, &avatar, 12, 13, 4), Ok(()));
    for y in 0..20u32 {
        for x in 0..20u32 {
            let inside = (2..6).contains(&x) && (3..7).contains(&y);
            let want = if !inside {
                CLEAR
            } else if is_corner(x - 2, y - 3, 4) {
                // painted into the hole with its colour, and left transparent
                Rgba { r: 255, g: 0, b: 0, a: 0 }
            } else {
                RED
            };
            assert_eq!(background.get_pixel(x, y), want);
        }
    }
}

#[test]
fn avatar_on_an_opaque_background() {
    let mut background = PixelBuffer::from_pixel(8, 8, BLUE);
    let avatar = PixelBuffer::from_pixel(4, 4, RED);
    assert_eq!(combine_images(&mut background, &avatar, 0, 0, 4), Ok(()));
    for y in 0..8u32 {
        for x in 0..8u32 {
            let disc = x < 4 && y < 4 && !is_corner(x, y, 4);
            assert_eq!(background.get_pixel(x, y), if disc { RED } else { BLUE });
        }
    }
}

#[test]
fn avatar_that_overflows_is_scaled_into_the_room_left() {
    let mut background = PixelBuffer::from_pixel(10, 10, BLUE);
    let avatar = PixelBuffer::from_pixel(16, 16, RED);
    assert_eq!(combine_images(&mut background, &avatar, 14, 14, 16), Ok(()));
    assert_eq!(background.width(), 10);
    assert_eq!(background.height(), 10);
    // nothing is drawn left of or above the anchor (4, 4)
    for y in 0..10 {
        for x in 0..10 {
            if x < 4 || y < 4 {
                assert_eq!(background.get_pixel(x, y), BLUE);
            }
        }
    }
    // the avatar is drawn at 6 by 6: its centre is red
    let centre = background.get_pixel(7, 7);
    assert!(centre.r > 200 && centre.b < 55 && centre.a == 255);
}

#[test]
fn placing_an_avatar_beyond_the_background_changes_nothing() {
    let mut background = PixelBuffer::from_pixel(5, 5, CLEAR);
    let avatar = PixelBuffer::from_pixel(3, 3, RED);
    assert_eq!(place_avatar(&mut background, &avatar, 30, 30), Ok(()));
    assert_eq!(background, PixelBuffer::from_pixel(5, 5, CLEAR));
}

#[test]
fn placing_paints_then_composites() {
    let mut background = PixelBuffer::from_pixel(3, 1, CLEAR);
    background.put_pixel(1, 0, BLUE);
    let mut avatar = PixelBuffer::from_pixel(3, 1, RED);
    avatar.put_pixel(2, 0, Rgba { r: 7, g: 8, b: 9, a: 0 });
    assert_eq!(place_avatar(&mut background, &avatar, 0, 0), Ok(()));
    // a hole takes the avatar's pixel
    assert_eq!(background.get_pixel(0, 0), RED);
    // opaque background is not painted, but the opaque avatar is composited
    assert_eq!(background.get_pixel(1, 0), RED);
    // a transparent avatar pixel is painted into a hole and composites nothing
    assert_eq!(background.get_pixel(2, 0), Rgba { r: 7, g: 8, b: 9, a: 0 });
}

#[test]
fn combining_with_a_size_that_cannot_be_addressed_fails() {
    let mut background = PixelBuffer::from_pixel(5, 5, BLUE);
    let avatar = PixelBuffer::from_pixel(3, 3, RED);
    assert_eq!(
        combine_images(&mut background, &avatar, 0, 0, u32::MAX),
        Err(RenderError::TooLarge)
    );
    assert_eq!(background, PixelBuffer::from_pixel(5, 5, BLUE));
}

#[test]
fn combining_with_size_zero_draws_nothing() {
    let mut background = PixelBuffer::from_pixel(5, 5, CLEAR);
    let avatar = PixelBuffer::from_pixel(3, 3, RED);
    assert_eq!(combine_images(&mut background, &avatar, 2, 2, 0), Ok(()));
    assert_eq!(background, PixelBuffer::from_pixel(5, 5, CLEAR));
}

#[test]
fn resampling_gives_the_size_asked_for() {
    let mut source = PixelBuffer::from_pixel(2, 2, RED);
    source.put_pixel(1, 0, BLUE);
    source.put_pixel(1, 1, BLUE);
    let wide = resample(&source, 4, 2, Filter::Nearest).unwrap();
    assert_eq!((wide.width(), wide.height()), (4, 2));
    for y in 0..2 {
        for x in 0..4 {
            assert_eq!(wide.get_pixel(x, y), if x < 2 { RED } else { BLUE });
        }
    }
    let small = resample(&source, 1, 3, Filter::Lanczos3).unwrap();
    assert_eq!((small.width(), small.height()), (1, 3));
    let none = resample(&source, 0, 7, Filter::Lanczos3).unwrap();
    assert_eq!((none.width(), none.height()), (0, 7));
}

#[test]
fn resampling_to_the_same_size_copies() {
    let mut source = PixelBuffer::from_pixel(3, 2, RED);
    source.put_pixel(2, 1, Rgba { r: 1, g: 2, b: 3, a: 4 });
    assert_eq!(resample(&source, 3, 2, Filter::Lanczos3), Ok(source.clone()));
    assert_eq!(resample(&source, 3, 2, Filter::Nearest), Ok(source));
}

#[test]
fn resampling_beyond_memory_is_refused() {
    let source = PixelBuffer::from_pixel(1, 1, RED);
    assert_eq!(resample(&source, u32::MAX, u32::MAX, Filter::Nearest), Err(RenderError::TooLarge));
    assert!(!can_resize(1, u32::MAX, u32::MAX));
    assert!(!can_resize(u32::MAX, 1, u32::MAX));
    assert!(can_resize(u32::MAX, u32::MAX, 0));
    assert!(can_resize(640, 150, 150));
}
