//! Pixels, pixel buffers and their mathematical model.
use vstd::prelude::*;

verus! {

/// One pixel: red, green, blue and alpha, eight bits each.
#[derive(Clone, Copy, Debug, PartialEq, Eq, Structural)]
pub struct Rgba {
    pub r: u8,
    pub g: u8,
    pub b: u8,
    pub a: u8,
}

impl Rgba {
    /// The same colour with another alpha value.
    pub open spec fn with_alpha(self, a: u8) -> Rgba {
        Rgba { r: self.r, g: self.g, b: self.b, a }
    }
}

/// The mathematical model of a pixel buffer: a grid of `width` by `height`
/// pixels, held row by row.
pub struct Raster {
    pub width: nat,
    pub height: nat,
    pub rows: Seq<Seq<Rgba>>,
}

impl Raster {
    /// There are `height` rows and each holds `width` pixels.
    pub open spec fn wf(self) -> bool {
        &&& self.rows.len() == self.height
        &&& forall|y: int| 0 <= y < self.height ==> (#[trigger] self.rows[y]).len() == self.width
    }

    /// Whether `(x, y)` lies on the grid.
    pub open spec fn contains(self, x: int, y: int) -> bool {
        0 <= x < self.width && 0 <= y < self.height
    }

    /// The pixel in column `x` of row `y`.
    pub open spec fn at(self, x: int, y: int) -> Rgba {
        self.rows[y][x]
    }

    /// The grid whose pixel at `(x, y)` is `f(x, y)`.
    pub open spec fn build(width: nat, height: nat, f: spec_fn(int, int) -> Rgba) -> Raster {
        Raster {
            width,
            height,
            rows: Seq::new(height, |y: int| Seq::new(width, |x: int| f(x, y))),
        }
    }

    /// The grid that holds `pixel` everywhere.
    pub open spec fn filled(width: nat, height: nat, pixel: Rgba) -> Raster {
        Raster::build(width, height, |x: int, y: int| pixel)
    }

    /// This grid with the pixel at `(x, y)` replaced by `pixel`.
    pub open spec fn with_pixel(self, x: int, y: int, pixel: Rgba) -> Raster {
        Raster::build(
            self.width,
            self.height,
            |cx: int, cy: int|
                if cx == x && cy == y {
                    pixel
                } else {
                    self.at(cx, cy)
                },
        )
    }

    /// A built grid is well-formed and holds `f(x, y)` at `(x, y)`.
    pub broadcast proof fn lemma_build(width: nat, height: nat, f: spec_fn(int, int) -> Rgba)
        ensures
            #![trigger Raster::build(width, height, f)]
            Raster::build(width, height, f).wf(),
            Raster::build(width, height, f).width == width,
            Raster::build(width, height, f).height == height,
            forall|x: int, y: int|
                0 <= x < width && 0 <= y < height ==> #[trigger] Raster::build(width, height, f).at(
                    x,
                    y,
                ) == f(x, y),
    {
    }

    /// Two well-formed grids of the same size that agree on every pixel are
    /// the same grid.
    pub proof fn lemma_equal(a: Raster, b: Raster)
        requires
            a.wf(),
            b.wf(),
            a.width == b.width,
            a.height == b.height,
            forall|x: int, y: int| a.contains(x, y) ==> a.at(x, y) == b.at(x, y),
        ensures
            a == b,
    {
        assert forall|y: int| 0 <= y < a.height implies a.rows[y] =~= b.rows[y] by {
            assert forall|x: int| 0 <= x < a.width implies a.rows[y][x] == b.rows[y][x] by {
                assert(a.contains(x, y));
                assert(a.at(x, y) == b.at(x, y));
            }
        }
        assert(a.rows =~= b.rows);
    }
}

/// Pixel number `i` of `data`, which holds four bytes a pixel.
pub open spec fn nth_pixel(data: Seq<u8>, i: int) -> Rgba {
    Rgba { r: data[4 * i], g: data[4 * i + 1], b: data[4 * i + 2], a: data[4 * i + 3] }
}

/// Row-major position of `(x, y)` in a grid that is `width` pixels wide.
pub open spec fn offset(width: int, x: int, y: int) -> int {
    y * width + x
}

proof fn lemma_offset_bound(width: int, height: int, x: int, y: int)
    requires
        0 <= x < width,
        0 <= y < height,
    ensures
        0 <= y * width <= offset(width, x, y) < width * height,
{
    assert(y * width + x < width * height) by (nonlinear_arith)
        requires
            0 <= x < width,
            0 <= y < height,
    ;
    assert(0 <= y * width) by (nonlinear_arith)
        requires
            0 <= y,
            0 <= width,
    ;
}

proof fn lemma_offset_injective(width: int, x1: int, y1: int, x2: int, y2: int)
    requires
        0 <= x1 < width,
        0 <= x2 < width,
        offset(width, x1, y1) == offset(width, x2, y2),
    ensures
        x1 == x2,
        y1 == y2,
{
    assert(y1 == y2) by (nonlinear_arith)
        requires
            0 <= x1 < width,
            0 <= x2 < width,
            y1 * width + x1 == y2 * width + x2,
    ;
}

/// Whether `(cx, cy)` comes before `(x, y)` where a grid that is `width`
/// pixels wide is walked row by row.
pub open spec fn comes_before(width: int, cx: int, cy: int, x: int, y: int) -> bool {
    0 <= cx < width && (0 <= cy < y || (cy == y && cx < x))
}

/// The grid of `width` by `height` pixels that `data` holds row by row, four
/// bytes a pixel.
pub open spec fn raster_of(width: nat, height: nat, data: Seq<u8>) -> Raster {
    Raster::build(width, height, |x: int, y: int| nth_pixel(data, offset(width as int, x, y)))
}

/// An owned grid of RGBA pixels, stored row by row with four bytes a pixel.
#[derive(Clone, Debug, PartialEq, Eq)]
pub struct PixelBuffer {
    pub(crate) width: u32,
    pub(crate) height: u32,
    pub(crate) data: Vec<u8>,
}

impl View for PixelBuffer {
    type V = Raster;

    closed spec fn view(&self) -> Raster {
        raster_of(self.width as nat, self.height as nat, self.data@)
    }
}

impl PixelBuffer {
    /// The stored bytes are exactly those of `width * height` pixels, and no
    /// more than a vector can hold.
    pub closed spec fn wf(&self) -> bool {
        &&& self.data@.len() == 4 * ((self.width as int) * (self.height as int))
        &&& PixelBuffer::fits(self.width, self.height)
    }

    /// The model of a buffer is a well-formed grid whose sides fit in `u32`
    /// and whose bytes fit in a vector.
    pub broadcast proof fn lemma_view_wf(&self)
        ensures
            #![trigger self.view()]
            self@.wf(),
            self@.width <= u32::MAX,
            self@.height <= u32::MAX,
            self.wf() ==> 4 * (self@.width * self@.height) <= isize::MAX,
    {
    }

    /// Whether the bytes of a `width` by `height` buffer fit in a vector,
    /// which holds `isize::MAX` bytes at most.
    pub open spec fn fits(width: u32, height: u32) -> bool {
        4 * ((width as int) * (height as int)) <= isize::MAX
    }

    /// Whether a buffer of the given size can be held.
    pub fn can_hold(width: u32, height: u32) -> (fits: bool)
        ensures
            fits == PixelBuffer::fits(width, height),
    {
        assert(0 <= (width as int) * (height as int) <= 0xffff_ffff * 0xffff_ffff)
            by (nonlinear_arith)
            requires
                0 <= width <= 0xffff_ffff,
                0 <= height <= 0xffff_ffff,
        ;
        let area: u128 = (width as u128) * (height as u128);
        4 * area <= isize::MAX as u128
    }

    /// A buffer of the given size that holds `pixel` everywhere.
    pub fn from_pixel(width: u32, height: u32, pixel: Rgba) -> (buf: PixelBuffer)
        requires
            PixelBuffer::fits(width, height),
        ensures
            buf.wf(),
            buf@ == Raster::filled(width as nat, height as nat, pixel),
    {
        let ghost area: int = (width as int) * (height as int);
        assert(0 <= area) by (nonlinear_arith)
            requires
                area == (width as int) * (height as int),
                0 <= width,
                0 <= height,
        ;
        let count: usize = width as usize * height as usize;
        let mut data: Vec<u8> = Vec::new();
        let mut i: usize = 0;
        while i < count
            invariant
                i <= count,
                4 * count <= isize::MAX,
                data@.len() == 4 * i,
                forall|j: int| 0 <= j < i ==> #[trigger] nth_pixel(data@, j) == pixel,
            decreases count - i,
        {
            let ghost before = data@;
            data.push(pixel.r);
            data.push(pixel.g);
            data.push(pixel.b);
            data.push(pixel.a);
            i = i + 1;
            assert forall|j: int| 0 <= j < i implies #[trigger] nth_pixel(data@, j) == pixel by {
                if j < i - 1 {
                    assert(nth_pixel(before, j) == pixel);
                }
            }
        }
        let buf = PixelBuffer { width, height, data };
        proof {
            let filled = Raster::filled(width as nat, height as nat, pixel);
            assert forall|cx: int, cy: int| buf@.contains(cx, cy) implies buf@.at(cx, cy)
                == filled.at(cx, cy) by {
                lemma_offset_bound(width as int, height as int, cx, cy);
            }
            Raster::lemma_equal(buf@, filled);
        }
        buf
    }

    /// A buffer of the given size over `data`, if `data` holds exactly the
    /// bytes of that many pixels.
    pub fn from_raw(width: u32, height: u32, data: Vec<u8>) -> (buf: Option<PixelBuffer>)
        ensures
            buf is Some <==> data@.len() == 4 * ((width as int) * (height as int))
                && PixelBuffer::fits(width, height),
            buf matches Some(b) ==> b.wf() && b@ == raster_of(width as nat, height as nat, data@),
    {
        let w: u128 = width as u128;
        let h: u128 = height as u128;
        assert(0 <= w * h <= 0xffff_ffff * 0xffff_ffff) by (nonlinear_arith)
            requires
                0 <= w <= 0xffff_ffff,
                0 <= h <= 0xffff_ffff,
        ;
        let area: u128 = w * h;
        let need: u128 = 4 * area;
        if data.len() as u128 == need && need <= isize::MAX as u128 {
            Some(PixelBuffer { width, height, data })
        } else {
            None
        }
    }

    /// Gives up the buffer for its bytes: those of its pixels, row by row.
    pub fn into_raw(self) -> (data: Vec<u8>)
        ensures
            self@ == raster_of(self@.width, self@.height, data@),
            self.wf() ==> data@.len() == 4 * (self@.width * self@.height),
    {
        self.data
    }

    /// The number of pixels in a row.
    pub fn width(&self) -> (w: u32)
        ensures
            w == self@.width,
    {
        self.width
    }

    /// The number of rows.
    pub fn height(&self) -> (h: u32)
        ensures
            h == self@.height,
    {
        self.height
    }

    /// The pixel at `(x, y)`.
    pub fn get_pixel(&self, x: u32, y: u32) -> (pixel: Rgba)
        requires
            self.wf(),
            self@.contains(x as int, y as int),
        ensures
            pixel == self@.at(x as int, y as int),
    {
        proof {
            lemma_offset_bound(self.width as int, self.height as int, x as int, y as int);
        }
        let row: usize = y as usize * self.width as usize;
        let i: usize = 4 * (row + x as usize);
        Rgba { r: self.data[i], g: self.data[i + 1], b: self.data[i + 2], a: self.data[i + 3] }
    }

    /// Replaces the pixel at `(x, y)`.
    pub fn put_pixel(&mut self, x: u32, y: u32, pixel: Rgba)
        requires
            old(self).wf(),
            old(self)@.contains(x as int, y as int),
        ensures
            final(self).wf(),
            final(self)@ == old(self)@.with_pixel(x as int, y as int, pixel),
    {
        proof {
            lemma_offset_bound(self.width as int, self.height as int, x as int, y as int);
        }
        let row: usize = y as usize * self.width as usize;
        let i: usize = 4 * (row + x as usize);
        self.data.set(i, pixel.r);
        self.data.set(i + 1, pixel.g);
        self.data.set(i + 2, pixel.b);
        self.data.set(i + 3, pixel.a);
        proof {
            let want = old(self)@.with_pixel(x as int, y as int, pixel);
            assert forall|cx: int, cy: int| self@.contains(cx, cy) implies self@.at(cx, cy)
                == want.at(cx, cy) by {
                lemma_offset_bound(self.width as int, self.height as int, cx, cy);
                let width = self.width as int;
                if (cx != x || cy != y) && offset(width, cx, cy) == offset(width, x as int, y as int) {
                    lemma_offset_injective(width, cx, cy, x as int, y as int);
                }
            }
            Raster::lemma_equal(self@, want);
        }
    }
}

} // verus!
