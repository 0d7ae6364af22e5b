//! Rendering of packed 1-bit frames into an 8-bit framebuffer.
//!
//! A frame is a run of bytes cut into rows of `row_bytes` bytes (the last
//! row may be shorter). Each byte carries eight pixels, least significant
//! bit first; a set bit is drawn white (255), a clear bit black (0). Row `r`
//! is drawn at framebuffer offset `r * stride`, one framebuffer byte per
//! pixel, and rows are drawn in order, so where rows overlap the later row
//! is what stays.

use vstd::prelude::*;

verus! {

/// Width in pixels of the frames the player streams.
pub const FRAME_WIDTH: usize = 600;

/// Height in pixels of the frames the player streams.
pub const FRAME_HEIGHT: usize = 800;

/// Bytes in one row of a streamed frame (eight pixels per byte).
pub const FRAME_ROW_BYTES: usize = 75;

/// Bytes in one streamed frame.
pub const FRAME_BYTES: usize = 60000;

/// Shade of pixel `bit` (0 to 7) of a packed byte.
pub open spec fn packed_pixel(byte: u8, bit: int) -> u8 {
    if (byte >> (bit as u8)) & 1u8 == 1u8 {
        255
    } else {
        0
    }
}

/// `fb` with the pixels of one packed row drawn from offset `at` on.
pub open spec fn paint_row(fb: Seq<u8>, row: Seq<u8>, at: int) -> Seq<u8> {
    Seq::new(
        fb.len(),
        |p: int|
            if at <= p < at + 8 * row.len() {
                packed_pixel(row[(p - at) / 8], (p - at) % 8)
            } else {
                fb[p]
            },
    )
}

/// Length of the first row of `frame`.
pub open spec fn first_row_len(frame_len: int, row_bytes: int) -> int {
    if frame_len < row_bytes {
        frame_len
    } else {
        row_bytes
    }
}

/// `fb` with the rows of `frame` drawn in order, the first at offset `at`
/// and each next one `stride` bytes further.
pub open spec fn paint_rows(fb: Seq<u8>, frame: Seq<u8>, row_bytes: int, stride: int, at: int) -> Seq<u8>
    decreases frame.len(),
{
    if frame.len() == 0 || row_bytes <= 0 {
        fb
    } else {
        let n = first_row_len(frame.len() as int, row_bytes);
        paint_rows(paint_row(fb, frame.take(n), at), frame.skip(n), row_bytes, stride, at + stride)
    }
}

/// The framebuffer after drawing `frame` with rows of `row_bytes` bytes and
/// a framebuffer line length of `stride` bytes.
pub open spec fn render_packed_frame(fb: Seq<u8>, frame: Seq<u8>, row_bytes: int, stride: int) -> Seq<u8> {
    paint_rows(fb, frame, row_bytes, stride, 0)
}

/// Every row of `frame` (first at offset `at`) lies inside a framebuffer of `fb_len` bytes.
pub open spec fn rows_fit(fb_len: int, frame_len: int, row_bytes: int, stride: int, at: int) -> bool
    decreases frame_len,
{
    if frame_len <= 0 || row_bytes <= 0 {
        true
    } else {
        let n = first_row_len(frame_len, row_bytes);
        at + 8 * n <= fb_len && rows_fit(fb_len, frame_len - n, row_bytes, stride, at + stride)
    }
}

/// Every row of the frame lies inside the framebuffer.
pub open spec fn packed_frame_fits(fb_len: int, frame_len: int, row_bytes: int, stride: int) -> bool {
    rows_fit(fb_len, frame_len, row_bytes, stride, 0)
}

/// Drawing rows never changes the framebuffer's length.
pub proof fn lemma_paint_rows_len(fb: Seq<u8>, frame: Seq<u8>, row_bytes: int, stride: int, at: int)
    ensures
        paint_rows(fb, frame, row_bytes, stride, at).len() == fb.len(),
    decreases frame.len(),
{
    if frame.len() > 0 && row_bytes > 0 {
        let n = first_row_len(frame.len() as int, row_bytes);
        lemma_paint_rows_len(paint_row(fb, frame.take(n), at), frame.skip(n), row_bytes, stride, at + stride);
    }
}

proof fn lemma_paint_rows_below(fb: Seq<u8>, frame: Seq<u8>, row_bytes: int, stride: int, at: int, p: int)
    requires
        stride >= 0,
        0 <= p < at,
        p < fb.len(),
    ensures
        paint_rows(fb, frame, row_bytes, stride, at)[p] == fb[p],
    decreases frame.len(),
{
    if frame.len() > 0 && row_bytes > 0 {
        let n = first_row_len(frame.len() as int, row_bytes);
        let painted = paint_row(fb, frame.take(n), at);
        lemma_paint_rows_below(painted, frame.skip(n), row_bytes, stride, at + stride, p);
    }
}

proof fn lemma_row_pixel(
    fb: Seq<u8>,
    frame: Seq<u8>,
    row_bytes: int,
    stride: int,
    at: int,
    x: int,
    y: int,
)
    requires
        row_bytes > 0,
        stride >= 8 * row_bytes,
        at >= 0,
        y >= 0,
        y * row_bytes < frame.len(),
        0 <= x < 8 * first_row_len(frame.len() - y * row_bytes, row_bytes),
        at + y * stride + x < fb.len(),
    ensures
        paint_rows(fb, frame, row_bytes, stride, at)[at + y * stride + x] == packed_pixel(
            frame[y * row_bytes + x / 8],
            x % 8,
        ),
    decreases y,
{
    let n = first_row_len(frame.len() as int, row_bytes);
    let painted = paint_row(fb, frame.take(n), at);
    assert(paint_rows(fb, frame, row_bytes, stride, at) == paint_rows(painted, frame.skip(n), row_bytes, stride, at + stride));
    if y == 0 {
        assert(y * row_bytes == 0 && y * stride == 0) by (nonlinear_arith)
            requires
                y == 0,
        ;
        assert(painted[at + x] == packed_pixel(frame.take(n)[x / 8], x % 8));
        lemma_paint_rows_below(painted, frame.skip(n), row_bytes, stride, at + stride, at + x);
        assert(frame.take(n)[x / 8] == frame[x / 8]);
    } else {
        assert(y * row_bytes == row_bytes + (y - 1) * row_bytes && y * stride == stride + (y - 1) * stride)
            by (nonlinear_arith);
        assert((y - 1) * row_bytes >= 0) by (nonlinear_arith)
            requires
                y >= 1,
                row_bytes > 0,
        ;
        assert(n == row_bytes);
        let rest = frame.skip(n);
        lemma_row_pixel(painted, rest, row_bytes, stride, at + stride, x, y - 1);
        assert(rest[(y - 1) * row_bytes + x / 8] == frame[y * row_bytes + x / 8]);
    }
}

/// Law: when framebuffer lines are at least as long as a frame row's
/// pixels, pixel `x` of row `y` of the frame lands at framebuffer byte
/// `y * stride + x` and carries bit `x % 8` of frame byte
/// `y * row_bytes + x / 8`.
pub proof fn lemma_frame_pixel_position(
    fb: Seq<u8>,
    frame: Seq<u8>,
    row_bytes: int,
    stride: int,
    x: int,
    y: int,
)
    requires
        row_bytes > 0,
        stride >= 8 * row_bytes,
        y >= 0,
        y * row_bytes < frame.len(),
        0 <= x < 8 * first_row_len(frame.len() - y * row_bytes, row_bytes),
        y * stride + x < fb.len(),
    ensures
        render_packed_frame(fb, frame, row_bytes, stride)[y * stride + x] == packed_pixel(
            frame[y * row_bytes + x / 8],
            x % 8,
        ),
{
    lemma_row_pixel(fb, frame, row_bytes, stride, 0, x, y);
}

/// Whether every row of a frame of `frame_len` bytes, cut into rows of
/// `row_bytes` bytes placed `stride` bytes apart, lies inside a framebuffer
/// of `fb_len` bytes.
pub fn packed_frame_fits_in(fb_len: usize, frame_len: usize, row_bytes: usize, stride: usize) -> (r: bool)
    requires
        row_bytes > 0,
    ensures
        r == packed_frame_fits(fb_len as int, frame_len as int, row_bytes as int, stride as int),
{
    let mut remaining = frame_len;
    let mut at: usize = 0;
    while remaining > 0
        invariant
            row_bytes > 0,
            rows_fit(fb_len as int, remaining as int, row_bytes as int, stride as int, at as int)
                == packed_frame_fits(fb_len as int, frame_len as int, row_bytes as int, stride as int),
        decreases remaining,
    {
        let n: usize = if remaining < row_bytes {
            remaining
        } else {
            row_bytes
        };
        assert(rows_fit(fb_len as int, remaining as int, row_bytes as int, stride as int, at as int)
            == (at + 8 * n <= fb_len && rows_fit(fb_len as int, remaining - n, row_bytes as int, stride as int, at + stride)));
        if at > fb_len || n > (fb_len - at) / 8 {
            return false;
        }
        remaining = remaining - n;
        if remaining > 0 {
            if stride > fb_len - at {
                let ghost m = first_row_len(remaining as int, row_bytes as int);
                assert(!rows_fit(fb_len as int, remaining as int, row_bytes as int, stride as int, at + stride)) by {
                    assert(at + stride + 8 * m > fb_len);
                }
                return false;
            }
            at = at + stride;
        }
    }
    true
}

/// Draws one packed row at offset `at`.
fn blit_row(fb: &mut [u8], frame: &[u8], first: usize, n: usize, at: usize)
    requires
        first + n <= frame@.len(),
        at + 8 * n <= old(fb)@.len(),
    ensures
        final(fb)@ == paint_row(old(fb)@, frame@.subrange(first as int, first + n), at as int),
{
    let ghost base = fb@;
    let ghost row = frame@.subrange(first as int, first + n);
    let frame_len = frame.len();
    let fb_len = fb.len();
    let mut i: usize = 0;
    while i < n
        invariant
            i <= n,
            frame_len == frame@.len(),
            fb_len == base.len(),
            first + n <= frame@.len(),
            at + 8 * n <= base.len(),
            row == frame@.subrange(first as int, first + n),
            fb@.len() == base.len(),
            forall|p: int|
                #![trigger fb@[p]]
                0 <= p < base.len() ==> fb@[p] == (if at <= p < at + 8 * i {
                    packed_pixel(row[(p - at) / 8], (p - at) % 8)
                } else {
                    base[p]
                }),
        decreases n - i,
    {
        let byte = frame[first + i];
        assert(byte == row[i as int]);
        let mut k: u8 = 0;
        while k < 8
            invariant
                i < n,
                k <= 8,
                frame_len == frame@.len(),
                fb_len == base.len(),
                first + n <= frame@.len(),
                at + 8 * n <= base.len(),
                byte == row[i as int],
                fb@.len() == base.len(),
                forall|p: int|
                    #![trigger fb@[p]]
                    0 <= p < base.len() ==> fb@[p] == (if at <= p < at + 8 * i + k {
                        packed_pixel(row[(p - at) / 8], (p - at) % 8)
                    } else {
                        base[p]
                    }),
            decreases 8 - k,
        {
            let shade: u8 = if (byte >> k) & 1u8 == 1u8 {
                255
            } else {
                0
            };
            let idx = at + 8 * i + k as usize;
            fb[idx] = shade;
            assert((idx - at) / 8 == i as int && (idx - at) % 8 == k as int);
            k = k + 1;
        }
        i = i + 1;
    }
    assert(fb@ =~= paint_row(base, row, at as int));
}

/// Draws a packed frame into the framebuffer: the frame's rows of
/// `row_bytes` bytes go `stride` bytes apart, one byte per pixel.
pub fn blit_packed_frame(fb: &mut [u8], frame: &[u8], row_bytes: usize, stride: usize)
    requires
        row_bytes > 0,
        packed_frame_fits(old(fb)@.len() as int, frame@.len() as int, row_bytes as int, stride as int),
    ensures
        final(fb)@ == render_packed_frame(old(fb)@, frame@, row_bytes as int, stride as int),
        final(fb)@.len() == old(fb)@.len(),
{
    let len = frame.len();
    let fb_len = fb.len();
    let mut first: usize = 0;
    let mut at: usize = 0;
    assert(frame@.skip(0) =~= frame@);
    while first < len
        invariant
            row_bytes > 0,
            fb_len == fb@.len(),
            first <= len,
            len == frame@.len(),
            rows_fit(fb@.len() as int, len - first, row_bytes as int, stride as int, at as int),
            paint_rows(fb@, frame@.skip(first as int), row_bytes as int, stride as int, at as int)
                == render_packed_frame(old(fb)@, frame@, row_bytes as int, stride as int),
        decreases len - first,
    {
        let n: usize = if len - first < row_bytes {
            len - first
        } else {
            row_bytes
        };
        let ghost rest = frame@.skip(first as int);
        assert(rest.take(n as int) =~= frame@.subrange(first as int, first + n));
        assert(rest.skip(n as int) =~= frame@.skip(first + n));
        assert(rest.len() == len - first);
        assert(n as int == first_row_len(rest.len() as int, row_bytes as int));
        assert(rows_fit(fb_len as int, len - first, row_bytes as int, stride as int, at as int)
            == (at + 8 * n <= fb_len && rows_fit(fb_len as int, len - first - n, row_bytes as int, stride as int, at + stride)));
        let ghost before = fb@;
        blit_row(fb, frame, first, n, at);
        assert(paint_rows(before, rest, row_bytes as int, stride as int, at as int)
            == paint_rows(fb@, frame@.skip(first + n), row_bytes as int, stride as int, at + stride));
        first = first + n;
        if first < len {
            assert(at + stride + 8 * first_row_len(len - first, row_bytes as int) <= fb_len);
            at = at + stride;
        } else {
            assert(frame@.skip(first as int).len() == 0);
            assert(paint_rows(fb@, frame@.skip(first as int), row_bytes as int, stride as int, at + stride) == fb@);
            assert(paint_rows(fb@, frame@.skip(first as int), row_bytes as int, stride as int, at as int) == fb@);
        }
    }
    assert(frame@.skip(first as int).len() == 0);
    proof {
        lemma_paint_rows_len(old(fb)@, frame@, row_bytes as int, stride as int, 0);
    }
}

} // verus!
