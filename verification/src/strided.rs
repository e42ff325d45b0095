//! Conversion between frames and strided RGBA8 planes (rows padded to a line size), the layout
//! of the decoder's and encoder's picture buffers.

use vstd::prelude::*;

use crate::frame::{channel, offset, Frame, FrameCtx};
use crate::pixel::Pixel;

verus! {

/// The pixel whose four bytes start at `base` in `plane`.
pub open spec fn pixel_at_byte(plane: Seq<u8>, base: int) -> Pixel {
    Pixel { r: plane[base], g: plane[base + 1], b: plane[base + 2], a: plane[base + 3] }
}

proof fn lemma_strided_index(x: int, y: int, c: int, w: int, h: int, stride: int)
    requires
        0 <= x < w,
        0 <= y < h,
        0 <= c < 4,
        4 * w <= stride,
    ensures
        0 <= y * stride + 4 * x + c,
        y * stride + 4 * x + c < (h - 1) * stride + 4 * w,
        y * stride + 4 * x + c < h * stride,
{
    assert(y * stride <= (h - 1) * stride) by (nonlinear_arith)
        requires 0 <= y < h, stride >= 0;
    assert(0 <= y * stride) by (nonlinear_arith)
        requires 0 <= y, stride >= 0;
    assert((h - 1) * stride + stride == h * stride) by (nonlinear_arith);
}

/// A `width` × `height` frame read from an RGBA8 plane whose rows start every `stride` bytes:
/// pixel `(x, y)` is the four bytes at `y * stride + 4 * x`. Padding bytes at the end of each
/// row are skipped.
pub fn frame_from_strided_rgba(
    plane: &[u8],
    stride: usize,
    width: u32,
    height: u32,
    ctx: FrameCtx,
) -> (f: Frame)
    requires
        4 * width <= stride,
        height > 0 ==> (height - 1) * stride + 4 * width <= plane.len(),
        width as int * height as int <= usize::MAX,
    ensures
        f.spec_width() == width,
        f.spec_height() == height,
        f.spec_ctx() == ctx,
        f.well_formed(),
        forall|x: int, y: int| #[trigger]
            f.contains(x, y) ==> f.at(x, y) == pixel_at_byte(plane@, y * stride + 4 * x),
{
    let mut data: Vec<Pixel> = Vec::new();
    let w = width as usize;
    let h = height as usize;
    let mut y: usize = 0;
    while y < h
        invariant
            w == width,
            h == height,
            4 * w <= stride,
            h > 0 ==> (h - 1) * stride + 4 * w <= plane.len(),
            w * h <= usize::MAX,
            y <= h,
            data.len() == y * w,
            forall|k: int|
                0 <= k < data.len() ==> #[trigger] data@[k] == pixel_at_byte(
                    plane@,
                    (k / w as int) * stride + 4 * (k % w as int),
                ),
        decreases h - y,
    {
        let mut x: usize = 0;
        while x < w
            invariant
                w == width,
                h == height,
                4 * w <= stride,
                (h - 1) * stride + 4 * w <= plane.len(),
                w * h <= usize::MAX,
                y < h,
                x <= w,
                data.len() == y * w + x,
                forall|k: int|
                    0 <= k < data.len() ==> #[trigger] data@[k] == pixel_at_byte(
                        plane@,
                        (k / w as int) * stride + 4 * (k % w as int),
                    ),
            decreases w - x,
        {
            proof {
                lemma_strided_index(x as int, y as int, 3, w as int, h as int, stride as int);
                crate::frame::lemma_offset_split(x as int, y as int, w as int);
                crate::frame::lemma_offset_in_bounds(x as int, y as int, w as int, h as int);
            }
            let base = y * stride + 4 * x;
            data.push(Pixel::new(plane[base], plane[base + 1], plane[base + 2], plane[base + 3]));
            x += 1;
        }
        proof {
            assert(y * w + w == (y + 1) * w) by (nonlinear_arith);
        }
        y += 1;
    }
    proof {
        assert(data.len() == width as int * height as int) by (nonlinear_arith)
            requires data.len() == y * w, y == h, w == width, h == height;
    }
    let f = Frame::from_rgba(width, height, data, ctx);
    proof {
        assert forall|x: int, y: int| #[trigger] f.contains(x, y) implies f.at(x, y)
            == pixel_at_byte(plane@, y * stride + 4 * x) by {
            crate::frame::lemma_offset_in_bounds(x, y, w as int, h as int);
            crate::frame::lemma_offset_split(x, y, w as int);
        }
    }
    f
}

/// The frame as an RGBA8 plane of `height` rows of `stride` bytes: pixel `(x, y)` at byte
/// `y * stride + 4 * x`, the bytes after each row's `4 * width` pixel bytes set to 0.
pub fn strided_rgba(frame: &Frame, stride: usize) -> (plane: Vec<u8>)
    requires
        4 * frame.spec_width() <= stride,
        frame.spec_height() * stride <= usize::MAX,
    ensures
        plane.len() == frame.spec_height() * stride,
        forall|x: int, y: int, c: int|
            #![trigger plane@[y * stride + 4 * x + c]]
            frame.contains(x, y) && 0 <= c < 4 ==> plane@[y * stride + 4 * x + c] == channel(
                frame.at(x, y),
                c,
            ),
        forall|y: int, j: int|
            #![trigger plane@[y * stride + j]]
            0 <= y < frame.spec_height() && 4 * frame.spec_width() <= j < stride ==> plane@[y
                * stride + j] == 0,
{
    let w = frame.width();
    let h = frame.height();
    let mut plane: Vec<u8> = Vec::new();
    let mut y: u32 = 0;
    while y < h
        invariant
            w == frame.spec_width(),
            h == frame.spec_height(),
            frame.well_formed(),
            4 * w <= stride,
            h * stride <= usize::MAX,
            y <= h,
            plane.len() == y * stride,
            forall|xx: int, yy: int, c: int|
                #![trigger plane@[yy * stride + 4 * xx + c]]
                0 <= xx < w && 0 <= yy < y && 0 <= c < 4 ==> plane@[yy * stride + 4 * xx + c]
                    == channel(frame.at(xx, yy), c),
            forall|yy: int, j: int|
                #![trigger plane@[yy * stride + j]]
                0 <= yy < y && 4 * w <= j < stride ==> plane@[yy * stride + j] == 0,
        decreases h - y,
    {
        let ghost row_start = plane.len() as int;
        let mut j: usize = 0;
        proof {
            assert((y as int + 1) * stride <= h * stride) by (nonlinear_arith)
                requires y < h, stride >= 0;
            assert((y as int + 1) * stride == y * stride + stride) by (nonlinear_arith);
        }
        while j < stride
            invariant
                w == frame.spec_width(),
                h == frame.spec_height(),
                frame.well_formed(),
                4 * w <= stride,
                y < h,
                y * stride + stride <= usize::MAX,
                row_start == y * stride,
                j <= stride,
                plane.len() == y * stride + j,
                forall|xx: int, yy: int, c: int|
                    #![trigger plane@[yy * stride + 4 * xx + c]]
                    0 <= xx < w && 0 <= yy < y && 0 <= c < 4 ==> plane@[yy * stride + 4 * xx + c]
                        == channel(frame.at(xx, yy), c),
                forall|yy: int, jj: int|
                    #![trigger plane@[yy * stride + jj]]
                    0 <= yy < y && 4 * w <= jj < stride ==> plane@[yy * stride + jj] == 0,
                forall|jj: int|
                    0 <= jj < j ==> #[trigger] plane@[row_start + jj] == if jj < 4 * w {
                        channel(frame.at(jj / 4, y as int), jj % 4)
                    } else {
                        0u8
                    },
            decreases stride - j,
        {
            let v: u8 = if j < 4 * (w as usize) {
                let p = frame.get_pixel((j / 4) as u32, y);
                let c = j % 4;
                if c == 0 {
                    p.r
                } else if c == 1 {
                    p.g
                } else if c == 2 {
                    p.b
                } else {
                    p.a
                }
            } else {
                0
            };
            let ghost before = plane@;
            plane.push(v);
            proof {
                assert forall|xx: int, yy: int, c: int|
                    #![trigger plane@[yy * stride + 4 * xx + c]]
                    0 <= xx < w && 0 <= yy < y && 0 <= c < 4 implies plane@[yy * stride + 4 * xx
                        + c] == channel(frame.at(xx, yy), c) by {
                    lemma_strided_index(xx, yy, c, w as int, y as int, stride as int);
                    assert(plane@[yy * stride + 4 * xx + c] == before[yy * stride + 4 * xx + c]);
                }
                assert forall|yy: int, jj: int|
                    #![trigger plane@[yy * stride + jj]]
                    0 <= yy < y && 4 * w <= jj < stride implies plane@[yy * stride + jj] == 0 by {
                    assert(yy * stride + jj < y * stride) by (nonlinear_arith)
                        requires 0 <= yy < y, 0 <= jj < stride;
                    assert(plane@[yy * stride + jj] == before[yy * stride + jj]);
                }
                assert forall|jj: int| 0 <= jj < j + 1 implies #[trigger] plane@[row_start + jj]
                    == if jj < 4 * w {
                    channel(frame.at(jj / 4, y as int), jj % 4)
                } else {
                    0u8
                } by {
                    if jj < j {
                        assert(plane@[row_start + jj] == before[row_start + jj]);
                    }
                }
            }
            j += 1;
        }
        proof {
            assert forall|xx: int, yy: int, c: int|
                #![trigger plane@[yy * stride + 4 * xx + c]]
                0 <= xx < w && 0 <= yy < y + 1 && 0 <= c < 4 implies plane@[yy * stride + 4 * xx
                    + c] == channel(frame.at(xx, yy), c) by {
                if yy == y {
                    let jj = 4 * xx + c;
                    assert(plane@[row_start + jj] == channel(frame.at(jj / 4, y as int), jj % 4));
                    vstd::arithmetic::div_mod::lemma_fundamental_div_mod_converse(jj, 4, xx, c);
                }
            }
            assert forall|yy: int, jj: int|
                #![trigger plane@[yy * stride + jj]]
                0 <= yy < y + 1 && 4 * w <= jj < stride implies plane@[yy * stride + jj] == 0 by {
                if yy == y {
                    assert(plane@[row_start + jj] == 0u8);
                }
            }
        }
        y += 1;
    }
    plane
}

/// Writing a frame to a strided plane and reading it back gives the frame's pixels again.
pub proof fn lemma_strided_roundtrip(frame: &Frame, plane: Seq<u8>, stride: int, back: &Frame)
    requires
        frame.well_formed(),
        back.well_formed(),
        4 * frame.spec_width() <= stride,
        forall|x: int, y: int, c: int|
            #![trigger plane[y * stride + 4 * x + c]]
            frame.contains(x, y) && 0 <= c < 4 ==> plane[y * stride + 4 * x + c] == channel(
                frame.at(x, y),
                c,
            ),
        back.spec_width() == frame.spec_width(),
        back.spec_height() == frame.spec_height(),
        forall|x: int, y: int| #[trigger]
            back.contains(x, y) ==> back.at(x, y) == pixel_at_byte(plane, y * stride + 4 * x),
    ensures
        back.pixels() == frame.pixels(),
{
    assert forall|x: int, y: int| #[trigger] frame.contains(x, y) implies back.at(x, y) == frame.at(x, y) by {
        assert(back.contains(x, y));
        let base = y * stride + 4 * x;
        assert(plane[y * stride + 4 * x + 0] == channel(frame.at(x, y), 0));
        assert(plane[y * stride + 4 * x + 1] == channel(frame.at(x, y), 1));
        assert(plane[y * stride + 4 * x + 2] == channel(frame.at(x, y), 2));
        assert(plane[y * stride + 4 * x + 3] == channel(frame.at(x, y), 3));
    }
    crate::frame::lemma_same_pixels(back, frame);
}

/// The first entry of `formats` (a decoder's list of offered pixel formats) that is one of
/// `preferred`; when none is, the first entry, or `end_marker` for an empty list.
pub fn pick_format(formats: &Vec<i32>, preferred: &Vec<i32>, end_marker: i32) -> (f: i32)
    ensures
        (exists|i: int| 0 <= i < formats.len() && preferred@.contains(#[trigger] formats@[i])) ==> {
            &&& preferred@.contains(f)
            &&& exists|i: int|
                0 <= i < formats.len() && formats@[i] == f && forall|j: int|
                    0 <= j < i ==> !preferred@.contains(#[trigger] formats@[j])
        },
        !(exists|i: int| 0 <= i < formats.len() && preferred@.contains(#[trigger] formats@[i]))
            ==> f == if formats.len() == 0 { end_marker } else { formats@[0] },
{
    let mut i: usize = 0;
    while i < formats.len()
        invariant
            i <= formats.len(),
            forall|j: int| 0 <= j < i ==> !preferred@.contains(#[trigger] formats@[j]),
        decreases formats.len() - i,
    {
        let mut k: usize = 0;
        let mut hit = false;
        while k < preferred.len()
            invariant
                k <= preferred.len(),
                i < formats.len(),
                hit == exists|m: int| 0 <= m < k && preferred@[m] == formats@[i as int],
            decreases preferred.len() - k,
        {
            if preferred[k] == formats[i] {
                hit = true;
            }
            k += 1;
        }
        if hit {
            return formats[i];
        }
        i += 1;
    }
    if formats.len() == 0 {
        end_marker
    } else {
        formats[0]
    }
}

} // verus!
