use avatar_cards::error::RenderError;
use avatar_cards::generate_phrase::{
    card_canvas, card_from_bytes, name_anchor, output_path, place_lines, quote_lines,
    quote_scale, saturating_i32, text_colour, PlacedLine, TextScale, AVATAR_LEFT, AVATAR_SIZE,
    AVATAR_TOP, CARD_HEIGHT, CARD_WIDTH, FONT_SIZE, LINE_HEIGHT, NAME_LEFT, NAME_TOP, TEXT_LEFT,
    TEXT_TOP, TEXT_WIDTH, TEXT_WIDTH_UNITS,
};
use avatar_cards::imaging::decode;
use avatar_cards::metrics::{AdvanceTable, UNITS_PER_PIXEL};
use avatar_cards::pixel::{PixelBuffer, Rgba};

const BLACK: Rgba = Rgba { r: 0, g: 0, b: 0, a: 255 };
const RED: Rgba = Rgba { r: 255, g: 0, b: 0, a: 255 };

fn png_of(picture: &PixelBuffer) -> Vec<u8> {
    let buffer =
        image::RgbaImage::from_raw(picture.width(), picture.height(), picture.clone().into_raw())
            .unwrap();
    let mut bytes = std::io::Cursor::new(Vec::new());
    image::DynamicImage::ImageRgba8(buffer)
        .write_to(&mut bytes, image::ImageOutputFormat::Png)
        .unwrap();
    bytes.into_inner()
}

#[test]
fn card_geometry() {
    assert_eq!((CARD_WIDTH, CARD_HEIGHT), (700, 182));
    assert_eq!(AVATAR_SIZE, 150);
    assert_eq!((AVATAR_LEFT, AVATAR_TOP), (100, 16));
    assert_eq!((TEXT_LEFT, TEXT_TOP), (350, 41));
    assert_eq!((NAME_LEFT, NAME_TOP), (400, 132));
    assert_eq!(FONT_SIZE, 30);
    assert_eq!(LINE_HEIGHT, 30);
    assert_eq!(TEXT_WIDTH, 300);
    assert_eq!(TEXT_WIDTH_UNITS, 300 * UNITS_PER_PIXEL);
    assert_eq!(name_anchor(), (400, 132));
    assert_eq!(text_colour(), Rgba { r: 255, g: 255, b: 255, a: 255 });
    assert_eq!(quote_scale(), TextScale { x: 30, y: 30 });
    assert_eq!(TextScale::uniform(12), TextScale { x: 12, y: 12 });
}

#[test]
fn conversion_to_signed_saturates() {
    assert_eq!(saturating_i32(0), 0);
    assert_eq!(saturating_i32(350), 350);
    assert_eq!(saturating_i32(i32::MAX as u32), i32::MAX);
    assert_eq!(saturating_i32(i32::MAX as u32 + 1), i32::MAX);
    assert_eq!(saturating_i32(u32::MAX), i32::MAX);
}

#[test]
fn canvas_is_black_with_the_avatar_on_the_left() {
    let mut avatar = PixelBuffer::from_pixel(150, 150, RED);
    avatar.put_pixel(0, 0, Rgba { r: 1, g: 2, b: 3, a: 255 });
    avatar.put_pixel(149, 149, Rgba { r: 4, g: 5, b: 6, a: 0 });
    let card = card_canvas(&avatar).unwrap();
    assert_eq!(card.width(), 700);
    assert_eq!(card.height(), 182);
    for y in 0..182u32 {
        for x in 0..700u32 {
            let inside = (100..250).contains(&x) && (16..166).contains(&y);
            let want = if !inside {
                BLACK
            } else if (x, y) == (100, 16) {
                Rgba { r: 1, g: 2, b: 3, a: 255 }
            } else if (x, y) == (249, 165) {
                // a transparent avatar pixel lets the canvas through
                BLACK
            } else {
                RED
            };
            assert_eq!(card.get_pixel(x, y), want);
        }
    }
}

#[test]
fn canvas_resizes_the_avatar_to_its_place() {
    let avatar = PixelBuffer::from_pixel(10, 40, RED);
    let card = card_canvas(&avatar).unwrap();
    assert_eq!((card.width(), card.height()), (700, 182));
    for y in 0..182u32 {
        for x in 0..700u32 {
            let inside = (100..250).contains(&x) && (16..166).contains(&y);
            assert_eq!(card.get_pixel(x, y), if inside { RED } else { BLACK });
        }
    }
}

#[test]
fn avatar_bytes_are_decoded() {
    let mut picture = PixelBuffer::from_pixel(3, 2, RED);
    picture.put_pixel(2, 1, Rgba { r: 10, g: 20, b: 30, a: 40 });
    let decoded = decode(&png_of(&picture)).unwrap();
    assert_eq!(decoded, picture);
}

#[test]
fn bytes_that_are_no_picture_are_refused() {
    assert_eq!(decode(b"this is no picture"), Err(RenderError::Decode));
    assert_eq!(decode(&[]), Err(RenderError::Decode));
    assert_eq!(card_from_bytes(b"nor is this"), Err(RenderError::Decode));
    let picture = PixelBuffer::from_pixel(3, 2, RED);
    let mut cut = png_of(&picture);
    cut.truncate(20);
    assert_eq!(decode(&cut), Err(RenderError::Decode));
}

#[test]
fn card_from_the_bytes_of_an_avatar() {
    let avatar = PixelBuffer::from_pixel(150, 150, RED);
    let card = card_from_bytes(&png_of(&avatar)).unwrap();
    assert_eq!(card, card_canvas(&avatar).unwrap());
    assert_eq!(card.get_pixel(99, 16), BLACK);
    assert_eq!(card.get_pixel(100, 16), RED);
}

#[test]
fn lines_are_placed_one_line_height_apart() {
    let lines = vec!["one".to_string(), "two".to_string(), "three".to_string()];
    let placed = place_lines(&lines, 7, -20);
    assert_eq!(
        placed,
        vec![
            PlacedLine { text: "one".to_string(), x: 7, y: -20 },
            PlacedLine { text: "two".to_string(), x: 7, y: 10 },
            PlacedLine { text: "three".to_string(), x: 7, y: 40 },
        ]
    );
    assert!(place_lines(&Vec::new(), 0, 0).is_empty());
}

#[test]
fn line_tops_stop_at_the_largest_coordinate() {
    let lines = vec![String::new(), String::new(), String::new(), String::new()];
    let placed = place_lines(&lines, 0, i32::MAX - 45);
    let tops: Vec<i32> = placed.iter().map(|line| line.y).collect();
    assert_eq!(tops, vec![i32::MAX - 45, i32::MAX - 15, i32::MAX, i32::MAX]);
}

#[test]
fn quote_is_wrapped_to_the_text_column() {
    // every glyph 30 pixels wide: ten to a line
    let table = AdvanceTable::new(30 * UNITS_PER_PIXEL);
    let placed = quote_lines("to be or not to be that is the question", &table);
    assert_eq!(
        placed,
        vec![
            PlacedLine { text: "to be or".to_string(), x: 350, y: 41 },
            PlacedLine { text: "not to be".to_string(), x: 350, y: 71 },
            PlacedLine { text: "that is".to_string(), x: 350, y: 101 },
            PlacedLine { text: "the".to_string(), x: 350, y: 131 },
            PlacedLine { text: "question".to_string(), x: 350, y: 161 },
        ]
    );
}

#[test]
fn quote_that_fits_is_one_line() {
    let table = AdvanceTable::new(12 * UNITS_PER_PIXEL);
    let placed = quote_lines("Hello world", &table);
    assert_eq!(placed, vec![PlacedLine { text: "Hello world".to_string(), x: 350, y: 41 }]);
    let empty = quote_lines("", &table);
    assert_eq!(empty, vec![PlacedLine { text: String::new(), x: 350, y: 41 }]);
}

#[test]
fn path_is_made_of_the_quoted_text() {
    assert_eq!(output_path("Hello world"), "/tmp/Hello world_phrase.png");
    assert_eq!(output_path(""), "/tmp/_phrase.png");
    assert_eq!(output_path("a/b"), "/tmp/a/b_phrase.png");
}
