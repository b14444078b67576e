//! The quote card: a black canvas with the avatar on the left and the quoted
//! text, wrapped into lines, on the right.
use crate::error::RenderError;
use crate::imaging::{
    composite, decode, overlaid, resample, resize_fits, resized_nearest, source_over, Filter,
};
use crate::layout::{contents_of, wrap_text, wrapped};
use crate::metrics::{AdvanceTable, UNITS_PER_PIXEL};
use crate::pixel::{PixelBuffer, Raster, Rgba};
use vstd::prelude::*;
use vstd::string::StringExecFns;

verus! {

/// Width of the card in pixels.
pub const CARD_WIDTH: u32 = 700;

/// Height of the card in pixels.
pub const CARD_HEIGHT: u32 = 182;

/// Side of the avatar on the card in pixels.
pub const AVATAR_SIZE: u32 = 150;

/// Left edge of the avatar.
pub const AVATAR_LEFT: u32 = 100;

/// Top edge of the avatar, which is centred vertically.
pub const AVATAR_TOP: u32 = CARD_HEIGHT / 2 - AVATAR_SIZE / 2;

/// Left edge of the quoted text.
pub const TEXT_LEFT: u32 = CARD_WIDTH - 350;

/// Top edge of the first line of the quoted text.
pub const TEXT_TOP: u32 = AVATAR_TOP + 25;

/// Left edge of the author's name.
pub const NAME_LEFT: u32 = CARD_WIDTH - 300;

/// Top edge of the author's name.
pub const NAME_TOP: u32 = CARD_HEIGHT - 50;

/// Size of the text in pixels.
pub const FONT_SIZE: u32 = 30;

/// Distance from the top of one line to the top of the next, in pixels.
pub const LINE_HEIGHT: i32 = 30;

/// Width of the text column in pixels.
pub const TEXT_WIDTH: u32 = 300;

/// Width of the text column in advance units.
pub const TEXT_WIDTH_UNITS: u32 = TEXT_WIDTH * UNITS_PER_PIXEL;

/// The size of text in pixels along each axis.
#[derive(Clone, Copy, Debug, PartialEq, Eq, Structural)]
pub struct TextScale {
    pub x: u32,
    pub y: u32,
}

impl TextScale {
    /// Whether the text is as large across as it is high, and so undistorted.
    pub open spec fn is_uniform(&self) -> bool {
        self.x == self.y
    }

    /// The scale of undistorted text of the given size.
    pub fn uniform(size: u32) -> (scale: TextScale)
        ensures
            scale.is_uniform(),
            scale.x == size,
    {
        TextScale { x: size, y: size }
    }
}

/// The scale of the text on the card.
pub fn quote_scale() -> (scale: TextScale)
    ensures
        scale.is_uniform(),
        scale.x == FONT_SIZE,
{
    TextScale::uniform(FONT_SIZE)
}

/// The colour of the canvas: opaque black.
pub open spec fn canvas_colour() -> Rgba {
    Rgba { r: 0, g: 0, b: 0, a: 255 }
}

/// The colour of the text: opaque white.
pub fn text_colour() -> (colour: Rgba)
    ensures
        colour == (Rgba { r: 255, g: 255, b: 255, a: 255 }),
{
    Rgba { r: 255, g: 255, b: 255, a: 255 }
}

/// An unsigned coordinate as a signed one, the largest signed one where it
/// does not fit.
pub fn saturating_i32(value: u32) -> (signed: i32)
    ensures
        signed == if value <= i32::MAX {
            value as int
        } else {
            i32::MAX as int
        },
{
    if value <= i32::MAX as u32 {
        value as i32
    } else {
        i32::MAX
    }
}

/// Whether the avatar of a card can be made from a picture that is
/// `source_width` pixels wide: whether that picture can be resized to the
/// avatar's size on the card.
pub open spec fn card_fits(source_width: nat) -> bool {
    resize_fits(source_width, AVATAR_SIZE as nat, AVATAR_SIZE as nat)
}

/// The canvas of the card for `avatar`: black, with `avatar`, resized to the
/// avatar's size on the card by nearest neighbour, composited onto it at the
/// avatar's place.
pub open spec fn canvas_of(avatar: Raster) -> Raster {
    overlaid(
        Raster::filled(CARD_WIDTH as nat, CARD_HEIGHT as nat, canvas_colour()),
        card_avatar(avatar),
        AVATAR_LEFT as int,
        AVATAR_TOP as int,
    )
}

/// The canvas of the card: black, with `avatar` resized by nearest neighbour
/// and composited on the left. The resized avatar fills the avatar's place
/// on the card exactly, so the canvas stays black around that place, and in
/// that place each pixel is the resized avatar's pixel composited onto
/// black. An avatar that has the size of its place already is composited as
/// it is. Fails with `TooLarge`, and only then, where the pictures involved
/// cannot be held in memory.
pub fn card_canvas(avatar: &PixelBuffer) -> (made: Result<PixelBuffer, RenderError>)
    requires
        avatar.wf(),
    ensures
        match made {
            Ok(card) => {
                &&& card_fits(avatar@.width)
                &&& card.wf()
                &&& fills_avatar_place(card_avatar(avatar@))
                &&& card@ == canvas_of(avatar@)
                &&& avatar@.width == AVATAR_SIZE && avatar@.height == AVATAR_SIZE ==> card_avatar(
                    avatar@,
                ) == avatar@
            },
            Err(e) => e == RenderError::TooLarge && !card_fits(avatar@.width),
        },
{
    broadcast use PixelBuffer::lemma_view_wf;

    match resample(avatar, AVATAR_SIZE, AVATAR_SIZE, Filter::Nearest) {
        Ok(small) => {
            let black = Rgba { r: 0, g: 0, b: 0, a: 255 };
            let mut card = PixelBuffer::from_pixel(CARD_WIDTH, CARD_HEIGHT, black);
            composite(&mut card, &small, AVATAR_LEFT, AVATAR_TOP);
            Ok(card)
        },
        Err(e) => Err(e),
    }
}

/// The canvas of the card for the avatar picture held in `bytes`: the canvas
/// of whatever avatar the bytes decode to. Fails with `Decode` where the
/// decoder refuses the bytes, and with `TooLarge` where the decoded or the
/// resized avatar cannot be held in memory.
pub fn card_from_bytes(bytes: &[u8]) -> (made: Result<PixelBuffer, RenderError>)
    ensures
        match made {
            Ok(card) => card.wf() && exists|avatar: Raster|
                {
                    &&& avatar.wf()
                    &&& card_fits(avatar.width)
                    &&& fills_avatar_place(card_avatar(avatar))
                    &&& card@ == #[trigger] canvas_of(avatar)
                },
            Err(e) => e == RenderError::Decode || e == RenderError::TooLarge,
        },
{
    broadcast use PixelBuffer::lemma_view_wf;

    match decode(bytes) {
        Ok(avatar) => match card_canvas(&avatar) {
            Ok(card) => {
                assert(card@ == canvas_of(avatar@));
                Ok(card)
            },
            Err(e) => Err(e),
        },
        Err(e) => Err(e),
    }
}

/// The avatar as it stands on the card: resized to the size of its place by
/// nearest neighbour.
pub open spec fn card_avatar(avatar: Raster) -> Raster {
    resized_nearest(avatar, AVATAR_SIZE as nat, AVATAR_SIZE as nat)
}

/// Whether `small` is a picture that fills the avatar's place on the card.
pub open spec fn fills_avatar_place(small: Raster) -> bool {
    small.wf() && small.width == AVATAR_SIZE && small.height == AVATAR_SIZE
}

/// Whether `(x, y)` lies in the avatar's place on the card.
pub open spec fn in_avatar_place(x: int, y: int) -> bool {
    AVATAR_LEFT <= x < AVATAR_LEFT + AVATAR_SIZE && AVATAR_TOP <= y < AVATAR_TOP + AVATAR_SIZE
}

/// The canvas of a card has the card's size. Around the avatar's place it is
/// black; in that place each pixel is the avatar's pixel composited onto
/// black.
pub proof fn lemma_canvas_pixels(avatar: Raster, x: int, y: int)
    requires
        fills_avatar_place(card_avatar(avatar)),
        0 <= x < CARD_WIDTH,
        0 <= y < CARD_HEIGHT,
    ensures
        canvas_of(avatar).wf(),
        canvas_of(avatar).width == CARD_WIDTH,
        canvas_of(avatar).height == CARD_HEIGHT,
        canvas_of(avatar).at(x, y) == if in_avatar_place(x, y) {
            source_over(canvas_colour(), card_avatar(avatar).at(x - AVATAR_LEFT, y - AVATAR_TOP))
        } else {
            canvas_colour()
        },
{
    broadcast use Raster::lemma_build;

}

/// A line of text and the point at which its top-left corner is drawn.
#[derive(Clone, Debug, PartialEq, Eq)]
pub struct PlacedLine {
    pub text: String,
    pub x: i32,
    pub y: i32,
}

/// The top edge of line number `index` below a first line at `top`: one line
/// height further down for each line, and no further than the largest
/// coordinate.
pub open spec fn line_top(top: int, index: int) -> int {
    if top + LINE_HEIGHT * index <= i32::MAX {
        top + LINE_HEIGHT * index
    } else {
        i32::MAX as int
    }
}

/// Whether `placed` are `lines` from top to bottom, the first at
/// `(left, top)`.
pub open spec fn is_placed(
    placed: Seq<PlacedLine>,
    lines: Seq<Seq<char>>,
    left: int,
    top: int,
) -> bool {
    &&& placed.len() == lines.len()
    &&& forall|k: int|
        0 <= k < placed.len() ==> {
            &&& (#[trigger] placed[k]).text@ == lines[k]
            &&& placed[k].x == left
            &&& placed[k].y == line_top(top, k)
        }
}

/// Lines further down the list are not drawn higher up, and are drawn lower
/// down as long as the coordinate can grow.
pub proof fn lemma_line_tops_increase(top: int, first: int, second: int)
    requires
        0 <= first < second,
    ensures
        line_top(top, first) <= line_top(top, second),
        line_top(top, second) < i32::MAX ==> line_top(top, first) < line_top(top, second),
{
}

/// Gives each of `lines` its place, the first at `(left, top)`.
pub fn place_lines(lines: &Vec<String>, left: i32, top: i32) -> (placed: Vec<PlacedLine>)
    ensures
        is_placed(placed@, contents_of(lines@), left as int, top as int),
{
    let mut placed: Vec<PlacedLine> = Vec::new();
    let mut y: i32 = top;
    let mut k: usize = 0;
    while k < lines.len()
        invariant
            k <= lines@.len(),
            y == line_top(top as int, k as int),
            is_placed(placed@, contents_of(lines@).take(k as int), left as int, top as int),
        decreases lines@.len() - k,
    {
        let ghost before = placed@;
        placed.push(PlacedLine { text: lines[k].clone(), x: left, y });
        assert forall|j: int| 0 <= j < placed@.len() implies {
            &&& (#[trigger] placed@[j]).text@ == contents_of(lines@).take(k + 1)[j]
            &&& placed@[j].x == left
            &&& placed@[j].y == line_top(top as int, j)
        } by {
            if j < k {
                assert(placed@[j] == before[j]);
                assert(contents_of(lines@).take(k as int)[j] == contents_of(lines@).take(k + 1)[j]);
            }
        }
        y = if y > i32::MAX - LINE_HEIGHT {
            i32::MAX
        } else {
            y + LINE_HEIGHT
        };
        k = k + 1;
    }
    assert(contents_of(lines@).take(lines@.len() as int) == contents_of(lines@));
    placed
}

/// The lines of the quoted text on the card, wrapped to the text column as
/// measured with `table`, each with its place.
pub fn quote_lines(content: &str, table: &AdvanceTable) -> (placed: Vec<PlacedLine>)
    ensures
        is_placed(
            placed@,
            wrapped(table, content@, TEXT_WIDTH_UNITS as nat),
            TEXT_LEFT as int,
            TEXT_TOP as int,
        ),
{
    let lines = wrap_text(content, table, TEXT_WIDTH_UNITS);
    place_lines(&lines, saturating_i32(TEXT_LEFT), saturating_i32(TEXT_TOP))
}

/// The point at which the author's name is drawn.
pub fn name_anchor() -> (at: (i32, i32))
    ensures
        at.0 == NAME_LEFT,
        at.1 == NAME_TOP,
{
    (saturating_i32(NAME_LEFT), saturating_i32(NAME_TOP))
}

/// The path of the file that holds the card for `content`.
pub fn output_path(content: &str) -> (path: String)
    ensures
        path@ == "/tmp/"@ + content@ + "_phrase.png"@,
{
    let mut path = String::from_str("/tmp/");
    path.append(content);
    path.append("_phrase.png");
    path
}

} // verus!
