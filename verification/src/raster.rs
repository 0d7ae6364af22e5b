//! Grayscale images and drawing them into an 8-bit framebuffer.
//!
//! The framebuffer is a run of bytes, one per pixel, `width` bytes per line:
//! pixel `(x, y)` is byte `x + y * width`.

use vstd::prelude::*;
use vstd::arithmetic::div_mod::{lemma_fundamental_div_mod, lemma_fundamental_div_mod_converse};
use vstd::arithmetic::mul::lemma_mul_is_commutative;

verus! {

/// An 8-bit grayscale image, stored row by row: pixel `(x, y)` is
/// `pixels[y * width + x]`.
pub struct GrayImage {
    width: u32,
    height: u32,
    pixels: Vec<u8>,
}

/// The mathematical content of a [`GrayImage`].
pub struct GrayView {
    pub width: u32,
    pub height: u32,
    pub pixels: Seq<u8>,
}

impl GrayView {
    /// Shade of pixel `(x, y)`.
    pub open spec fn pixel(self, x: int, y: int) -> u8 {
        self.pixels[y * self.width + x]
    }

    /// The pixel store holds every pixel of the image.
    pub open spec fn wf(self) -> bool {
        self.pixels.len() >= self.width * self.height
    }
}

impl View for GrayImage {
    type V = GrayView;

    closed spec fn view(&self) -> GrayView {
        GrayView { width: self.width, height: self.height, pixels: self.pixels@ }
    }
}

impl GrayImage {
    #[verifier::type_invariant]
    spec fn holds_all_pixels(self) -> bool {
        self.pixels@.len() >= self.width * self.height
    }

    /// Builds an image from its dimensions and its row-major pixels; `None`
    /// when `pixels` is shorter than `width * height`.
    pub fn from_raw(width: u32, height: u32, pixels: Vec<u8>) -> (r: Option<GrayImage>)
        ensures
            r is Some <==> pixels@.len() >= width * height,
            r matches Some(img) ==> img@ == (GrayView { width, height, pixels: pixels@ }),
    {
        let n = pixels.len();
        let enough = if width == 0 || height == 0 {
            true
        } else {
            n / (width as usize) >= height as usize
        };
        proof {
            if width != 0 && height != 0 {
                lemma_floor_div_bound(n as int, width as int, height as int);
            } else {
                assert(width * height == 0) by (nonlinear_arith)
                    requires
                        width == 0 || height == 0,
                ;
            }
        }
        if enough {
            Some(GrayImage { width, height, pixels })
        } else {
            None
        }
    }

    /// Width in pixels.
    pub fn width(&self) -> (r: u32)
        ensures
            r == self@.width,
    {
        self.width
    }

    /// Height in pixels.
    pub fn height(&self) -> (r: u32)
        ensures
            r == self@.height,
    {
        self.height
    }

    /// Shade of pixel `(x, y)`.
    pub fn get_pixel(&self, x: u32, y: u32) -> (r: u8)
        requires
            x < self@.width,
            y < self@.height,
        ensures
            r == self@.pixel(x as int, y as int),
    {
        proof {
            use_type_invariant(self);
            lemma_index_in_grid(x as int, y as int, self.width as int, self.height as int);
        }
        let len = self.pixels.len();
        assert(y * self.width + x < len);
        self.pixels[y as usize * self.width as usize + x as usize]
    }
}

/// The smaller of two 32-bit values.
pub open spec fn min_u32(a: u32, b: u32) -> u32 {
    if a < b {
        a
    } else {
        b
    }
}

/// One past the last framebuffer byte that drawing `img` into a screen of
/// `width` by `height` pixels reaches (0 when nothing is drawn).
pub open spec fn drawn_extent(img: GrayView, width: u32, height: u32) -> int {
    let xs = min_u32(img.width, width);
    let ys = min_u32(img.height, height);
    if xs == 0 || ys == 0 {
        0
    } else {
        (ys - 1) * width + xs
    }
}

/// The framebuffer `fb` (lines of `width` bytes) after drawing `img` at the
/// top left corner, clipped to `width` by `height` pixels: every byte that
/// falls inside both the image and the screen takes the image's shade, every
/// other byte keeps its value.
pub open spec fn draw_gray_spec(fb: Seq<u8>, img: GrayView, width: u32, height: u32) -> Seq<u8> {
    let xs = min_u32(img.width, width);
    let ys = min_u32(img.height, height);
    Seq::new(
        fb.len(),
        |p: int|
            if width > 0 && p / (width as int) < ys && p % (width as int) < xs {
                img.pixel(p % (width as int), p / (width as int))
            } else {
                fb[p]
            },
    )
}

/// Whether drawing `img` on a `width` by `height` screen stays inside a
/// framebuffer of `fb_len` bytes and its offsets inside 32 bits.
pub fn gray_fits(img: &GrayImage, width: u32, height: u32, fb_len: usize) -> (r: bool)
    ensures
        r == (drawn_extent(img@, width, height) <= fb_len && drawn_extent(img@, width, height) <= u32::MAX
            + 1),
        r == (forall|x: int, y: int|
            0 <= x < min_u32(img@.width, width) && 0 <= y < min_u32(img@.height, height) ==> #[trigger] fb_offset(
                x,
                y,
                width as int,
            ) < fb_len && fb_offset(x, y, width as int) <= u32::MAX),
{
    proof {
        lemma_drawn_extent_is_tight(img@, width, height, fb_len as int);
        lemma_drawn_extent_is_tight(img@, width, height, u32::MAX + 1);
    }
    let iw = img.width();
    let ih = img.height();
    let xs: u32 = if iw < width {
        iw
    } else {
        width
    };
    let ys: u32 = if ih < height {
        ih
    } else {
        height
    };
    if xs == 0 || ys == 0 {
        return true;
    }
    assert((ys - 1) * width <= u32::MAX * u32::MAX) by (nonlinear_arith)
        requires
            ys >= 1,
    ;
    let extent: u64 = (ys - 1) as u64 * width as u64 + xs as u64;
    extent <= fb_len as u64 && extent <= 0x1_0000_0000u64
}

/// Whether the test square at `(x_offset, y_offset)` on a framebuffer with
/// lines of `width` bytes stays inside `fb_len` bytes and its offsets inside 32 bits.
pub fn square_fits(fb_len: usize, width: u32, x_offset: u32, y_offset: u32) -> (r: bool)
    ensures
        r == (square_extent(x_offset, y_offset, width) <= fb_len && square_extent(x_offset, y_offset, width)
            <= u32::MAX + 1 && y_offset + SQUARE_SIDE - 1 <= u32::MAX),
{
    if y_offset > u32::MAX - (SQUARE_SIDE - 1) {
        return false;
    }
    let last_row: u64 = (y_offset + (SQUARE_SIDE - 1)) as u64;
    assert(last_row * width <= u32::MAX * u32::MAX) by (nonlinear_arith)
        requires
            last_row <= u32::MAX,
            width <= u32::MAX,
    ;
    let extent: u64 = x_offset as u64 + last_row * width as u64 + SQUARE_SIDE as u64;
    extent <= fb_len as u64 && extent <= 0x1_0000_0000u64
}

/// Framebuffer offset of pixel `(x, y)` on lines of `width` bytes.
pub open spec fn fb_offset(x: int, y: int, width: int) -> int {
    y * width + x
}

/// Law: `drawn_extent` bounds exactly the bytes a drawing writes. For any
/// bound, the extent stays within it exactly when every byte
/// `y * width + x` with `x` under the clipped width and `y` under the
/// clipped height lies below it.
pub proof fn lemma_drawn_extent_is_tight(img: GrayView, width: u32, height: u32, bound: int)
    requires
        bound >= 0,
    ensures
        drawn_extent(img, width, height) <= bound <==> (forall|x: int, y: int|
            0 <= x < min_u32(img.width, width) && 0 <= y < min_u32(img.height, height) ==> #[trigger] fb_offset(
                x,
                y,
                width as int,
            ) < bound),
{
    let xs = min_u32(img.width, width) as int;
    let ys = min_u32(img.height, height) as int;
    let w = width as int;
    if xs > 0 && ys > 0 {
        if drawn_extent(img, width, height) <= bound {
            assert forall|x: int, y: int| 0 <= x < xs && 0 <= y < ys implies #[trigger] fb_offset(x, y, w)
                < bound by {
                assert(y * w + x <= (ys - 1) * w + xs - 1) by (nonlinear_arith)
                    requires
                        0 <= x < xs,
                        0 <= y < ys,
                        w >= 0,
                ;
            }
        }
        if forall|x: int, y: int| 0 <= x < xs && 0 <= y < ys ==> #[trigger] fb_offset(x, y, w) < bound {
            assert(fb_offset(xs - 1, ys - 1, w) < bound);
        }
    }
}

/// Law: drawing puts every pixel of the clipped image at its place: for
/// every `x` under the smaller of the image and screen widths and every `y`
/// under the smaller of the image and screen heights, framebuffer byte
/// `y * width + x` is the image's pixel `(x, y)`.
pub proof fn lemma_draw_gray_places_pixels(fb: Seq<u8>, img: GrayView, width: u32, height: u32)
    requires
        drawn_extent(img, width, height) <= fb.len(),
    ensures
        forall|x: int, y: int|
            0 <= x < min_u32(img.width, width) && 0 <= y < min_u32(img.height, height) ==> draw_gray_spec(
                fb,
                img,
                width,
                height,
            )[#[trigger] fb_offset(x, y, width as int)] == img.pixel(x, y),
{
    let xs = min_u32(img.width, width) as int;
    let ys = min_u32(img.height, height) as int;
    let w = width as int;
    lemma_drawn_extent_is_tight(img, width, height, fb.len() as int);
    assert forall|x: int, y: int| 0 <= x < xs && 0 <= y < ys implies draw_gray_spec(
        fb,
        img,
        width,
        height,
    )[#[trigger] fb_offset(x, y, w)] == img.pixel(x, y) by {
        lemma_grid_position(fb_offset(x, y, w), w, x, y);
    }
}

/// Law: drawing changes no other byte: the framebuffer keeps its length,
/// and a byte that is not `y * width + x` for any `x` under the clipped width
/// and `y` under the clipped height keeps its value.
pub proof fn lemma_draw_gray_keeps_other_bytes(fb: Seq<u8>, img: GrayView, width: u32, height: u32, p: int)
    requires
        0 <= p < fb.len(),
        forall|x: int, y: int|
            0 <= x < min_u32(img.width, width) && 0 <= y < min_u32(img.height, height) ==> #[trigger] fb_offset(
                x,
                y,
                width as int,
            ) != p,
    ensures
        draw_gray_spec(fb, img, width, height).len() == fb.len(),
        draw_gray_spec(fb, img, width, height)[p] == fb[p],
{
    let w = width as int;
    if w > 0 && p / w < min_u32(img.height, height) && p % w < min_u32(img.width, width) {
        lemma_grid_position(p, w, p % w, p / w);
        assert(fb_offset(p % w, p / w, w) == p);
    }
}

proof fn lemma_grid_position(p: int, w: int, x: int, y: int)
    requires
        w > 0,
        0 <= x < w,
        y >= 0,
    ensures
        (p == y * w + x) <==> (p / w == y && p % w == x),
{
    if p == y * w + x {
        lemma_fundamental_div_mod_converse(p, w, y, x);
    }
    lemma_fundamental_div_mod(p, w);
    lemma_mul_is_commutative(w, p / w);
}

/// Draws `img` at the top left corner of a framebuffer whose lines are
/// `width` bytes, clipped to a screen of `width` by `height` pixels.
pub fn draw_gray(fb: &mut [u8], img: &GrayImage, width: u32, height: u32)
    requires
        drawn_extent(img@, width, height) <= old(fb)@.len(),
        drawn_extent(img@, width, height) <= u32::MAX + 1,
    ensures
        final(fb)@ == draw_gray_spec(old(fb)@, img@, width, height),
        forall|x: int, y: int|
            0 <= x < min_u32(img@.width, width) && 0 <= y < min_u32(img@.height, height) ==> final(fb)@[#[trigger] fb_offset(x, y, width as int)]
                == img@.pixel(x, y),
        final(fb)@.len() == old(fb)@.len(),
{
    let iw = img.width();
    let ih = img.height();
    let xs: u32 = if iw < width {
        iw
    } else {
        width
    };
    let ys: u32 = if ih < height {
        ih
    } else {
        height
    };
    let ghost base = fb@;
    let ghost w = width as int;
    let fb_len = fb.len();
    let mut y: u32 = 0;
    while y < ys
        invariant
            y <= ys,
            xs == min_u32(img@.width, width),
            ys == min_u32(img@.height, height),
            w == width as int,
            fb_len == fb@.len(),
            fb@.len() == base.len(),
            drawn_extent(img@, width, height) <= base.len(),
            drawn_extent(img@, width, height) <= u32::MAX + 1,
            forall|p: int|
                #![trigger fb@[p]]
                0 <= p < base.len() ==> fb@[p] == (if w > 0 && p / w < y && p % w < xs {
                    img@.pixel(p % w, p / w)
                } else {
                    base[p]
                }),
        decreases ys - y,
    {
        if xs > 0 {
            assert(y * w <= (ys - 1) * w) by (nonlinear_arith)
                requires
                    y < ys,
                    w >= 0,
            ;
        }
        let mut x: u32 = 0;
        while x < xs
            invariant
                x <= xs,
                y < ys,
                xs > 0 ==> y * w <= (ys - 1) * w,
                xs == min_u32(img@.width, width),
                ys == min_u32(img@.height, height),
                w == width as int,
                fb_len == fb@.len(),
                fb@.len() == base.len(),
                drawn_extent(img@, width, height) <= base.len(),
                drawn_extent(img@, width, height) <= u32::MAX + 1,
                forall|p: int|
                    #![trigger fb@[p]]
                    0 <= p < base.len() ==> fb@[p] == (if w > 0 && p % w < xs && (p / w < y || (p / w
                        == y && p % w < x)) {
                        img@.pixel(p % w, p / w)
                    } else {
                        base[p]
                    }),
            decreases xs - x,
        {
            let shade = img.get_pixel(x, y);
            let idx: u32 = y * width + x;
            fb[idx as usize] = shade;
            proof {
                lemma_grid_position(idx as int, w, x as int, y as int);
                assert forall|p: int| 0 <= p < base.len() implies #[trigger] fb@[p] == (if w > 0 && p % w
                    < xs && (p / w < y || (p / w == y && p % w < x + 1)) {
                    img@.pixel(p % w, p / w)
                } else {
                    base[p]
                }) by {
                    lemma_grid_position(p, w, x as int, y as int);
                }
            }
            x = x + 1;
        }
        y = y + 1;
    }
    assert(fb@ =~= draw_gray_spec(base, img@, width, height));
    proof {
        lemma_draw_gray_places_pixels(base, img@, width, height);
    }
}

/// Side in pixels of the test square.
pub const SQUARE_SIDE: u32 = 100;

/// Framebuffer offset of the first pixel of line `row` of the test square.
pub open spec fn square_row_start(x_offset: u32, y_offset: u32, width: u32, row: int) -> int {
    x_offset + (y_offset + row) * width
}

/// `p` is one of the framebuffer bytes of the first `rows` lines of the test square.
pub open spec fn in_square_rows(p: int, x_offset: u32, y_offset: u32, width: u32, rows: int) -> bool {
    exists|row: int|
        0 <= row < rows && square_row_start(x_offset, y_offset, width, row) <= p
            < #[trigger] square_row_start(x_offset, y_offset, width, row) + SQUARE_SIDE
}

/// One past the last framebuffer byte of the test square.
pub open spec fn square_extent(x_offset: u32, y_offset: u32, width: u32) -> int {
    square_row_start(x_offset, y_offset, width, SQUARE_SIDE - 1) + SQUARE_SIDE
}

/// Paints black a square of `SQUARE_SIDE` pixels whose top left corner is at
/// `(x_offset, y_offset)` on a framebuffer with lines of `width` bytes.
pub fn draw_black_square(fb: &mut [u8], width: u32, x_offset: u32, y_offset: u32)
    requires
        square_extent(x_offset, y_offset, width) <= old(fb)@.len(),
        square_extent(x_offset, y_offset, width) <= u32::MAX + 1,
        y_offset + SQUARE_SIDE - 1 <= u32::MAX,
    ensures
        forall|p: int|
            #![trigger final(fb)@[p]]
            0 <= p < final(fb)@.len() ==> final(fb)@[p] == (if in_square_rows(
                p,
                x_offset,
                y_offset,
                width,
                SQUARE_SIDE as int,
            ) {
                0
            } else {
                old(fb)@[p]
            }),
        final(fb)@.len() == old(fb)@.len(),
{
    let ghost base = fb@;
    let fb_len = fb.len();
    let mut y: u32 = 0;
    while y < SQUARE_SIDE
        invariant
            y <= SQUARE_SIDE,
            fb_len == fb@.len(),
            fb@.len() == base.len(),
            square_extent(x_offset, y_offset, width) <= base.len(),
            square_extent(x_offset, y_offset, width) <= u32::MAX + 1,
            y_offset + SQUARE_SIDE - 1 <= u32::MAX,
            forall|p: int|
                #![trigger fb@[p]]
                0 <= p < base.len() ==> fb@[p] == (if in_square_rows(p, x_offset, y_offset, width, y as int) {
                    0
                } else {
                    base[p]
                }),
        decreases SQUARE_SIDE - y,
    {
        assert((y_offset + y) * width <= (y_offset + SQUARE_SIDE - 1) * width) by (nonlinear_arith)
            requires
                y < SQUARE_SIDE,
        ;
        let ghost start = square_row_start(x_offset, y_offset, width, y as int);
        let mut x: u32 = 0;
        while x < SQUARE_SIDE
            invariant
                x <= SQUARE_SIDE,
                y < SQUARE_SIDE,
                start == square_row_start(x_offset, y_offset, width, y as int),
                (y_offset + y) * width <= (y_offset + SQUARE_SIDE - 1) * width,
                fb_len == fb@.len(),
                fb@.len() == base.len(),
                square_extent(x_offset, y_offset, width) <= base.len(),
                square_extent(x_offset, y_offset, width) <= u32::MAX + 1,
                y_offset + SQUARE_SIDE - 1 <= u32::MAX,
                forall|p: int|
                    #![trigger fb@[p]]
                    0 <= p < base.len() ==> fb@[p] == (if in_square_rows(p, x_offset, y_offset, width, y as int)
                        || start <= p < start + x {
                        0
                    } else {
                        base[p]
                    }),
            decreases SQUARE_SIDE - x,
        {
            let idx: u32 = (x + x_offset) + (y + y_offset) * width;
            fb[idx as usize] = 0;
            x = x + 1;
        }
        assert forall|p: int| #![trigger in_square_rows(p, x_offset, y_offset, width, y + 1)]
            in_square_rows(p, x_offset, y_offset, width, y + 1) == (in_square_rows(
                p,
                x_offset,
                y_offset,
                width,
                y as int,
            ) || start <= p < start + SQUARE_SIDE) by {
            if start <= p < start + SQUARE_SIDE {
                assert(0 <= y < y + 1 && square_row_start(x_offset, y_offset, width, y as int) <= p
                    < square_row_start(x_offset, y_offset, width, y as int) + SQUARE_SIDE);
            }
            if in_square_rows(p, x_offset, y_offset, width, y as int) {
                let row = choose|row: int|
                    0 <= row < y && square_row_start(x_offset, y_offset, width, row) <= p
                        < #[trigger] square_row_start(x_offset, y_offset, width, row) + SQUARE_SIDE;
                assert(0 <= row < y + 1 && square_row_start(x_offset, y_offset, width, row) <= p
                    < square_row_start(x_offset, y_offset, width, row) + SQUARE_SIDE);
            }
        }
        y = y + 1;
    }
}

/// Bytes of framebuffer memory for `yres` lines of `line_length` bytes.
pub fn screen_size(yres: u32, line_length: u32) -> (r: usize)
    requires
        yres * line_length <= u32::MAX,
    ensures
        r == yres * line_length,
{
    (yres * line_length) as usize
}

proof fn lemma_floor_div_bound(n: int, w: int, h: int)
    requires
        n >= 0,
        w > 0,
        h > 0,
    ensures
        (n / w >= h) <==> (n >= w * h),
{
    lemma_fundamental_div_mod(n, w);
    assert((n / w >= h) ==> (n >= w * h)) by (nonlinear_arith)
        requires
            n == w * (n / w) + n % w,
            n % w >= 0,
            w > 0,
    ;
    assert((n >= w * h) ==> (n / w >= h)) by (nonlinear_arith)
        requires
            n == w * (n / w) + n % w,
            n % w < w,
            w > 0,
    ;
}

proof fn lemma_index_in_grid(x: int, y: int, w: int, h: int)
    requires
        0 <= x < w,
        0 <= y < h,
    ensures
        0 <= y * w + x < w * h,
{
    assert(0 <= y * w + x < w * h) by (nonlinear_arith)
        requires
            0 <= x < w,
            0 <= y < h,
    ;
}

} // verus!
