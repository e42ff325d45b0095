//! Low-resolution glitch with difference overlay: the frame is reduced to a mosaic of blocks,
//! an inner node glitches the mosaic, and only the blocks whose colour changed significantly are
//! written back into the full-resolution frame.

use vstd::prelude::*;

use crate::frame::{channel, Frame, FrameCtx};
use crate::pixel::Pixel;
use crate::process::Process;
use crate::rng::{xoshiro_draw, SeededRng};

verus! {

/// How the mosaic (low-resolution frame) is made.
#[derive(Clone, Copy, Debug, PartialEq, Eq, Structural)]
pub enum DownsampleMode {
    /// Channel-wise average (rounded down) of every pixel of the block.
    Interpolate,
    /// The pixel at the block's centre.
    Nearest,
    /// One pseudo-random pixel of the block.
    Random,
}

impl Default for DownsampleMode {
    /// The block average.
    fn default() -> (d: DownsampleMode)
        ensures
            d == DownsampleMode::Interpolate,
    {
        DownsampleMode::Interpolate
    }
}

/// How a changed block is written back into the full-resolution frame.
#[derive(Clone, Copy, Debug, PartialEq, Eq, Structural)]
pub enum OverlayMode {
    /// The block's colour channels become the glitched block colour; the alpha stays.
    Replace,
    /// Every colour channel gets the block's change (glitched minus original block colour)
    /// added, clamped to `0..=255`; the alpha stays.
    Add,
}

impl Default for OverlayMode {
    /// Replacing overlay.
    fn default() -> (d: OverlayMode)
        ensures
            d == OverlayMode::Replace,
    {
        OverlayMode::Replace
    }
}

/// Settings of [`LowResGlitch`].
#[derive(Clone, Copy, Debug, PartialEq, Eq, Structural)]
pub struct LowResGlitchDescriptor {
    /// Side of one mosaic block in pixels; 0 acts as 1.
    pub block: u32,
    /// How the mosaic is made.
    pub downsample: DownsampleMode,
    /// How changed blocks are written back.
    pub overlay: OverlayMode,
    /// A block counts as unchanged while the sum of the absolute differences of its three
    /// colour channels (before and after the inner node) is at most this value; with `None`
    /// every block counts as changed. The mean difference per channel is this sum divided by 3.
    pub quiet_limit: Option<u16>,
    /// Seed of the [`DownsampleMode::Random`] sampler.
    pub seed: u64,
}

impl Default for LowResGlitchDescriptor {
    /// The settings of [`LowResGlitchDescriptor::new`].
    fn default() -> (d: LowResGlitchDescriptor)
        ensures
            d == (LowResGlitchDescriptor {
                block: 8,
                downsample: DownsampleMode::Interpolate,
                overlay: OverlayMode::Replace,
                quiet_limit: Some(24u16),
                seed: 0,
            }),
    {
        LowResGlitchDescriptor::new()
    }
}

impl LowResGlitchDescriptor {
    /// Blocks of 8 px, averaged mosaic, replacing overlay, blocks with a mean channel change of
    /// at most 8 left alone (sum at most 24), seed 0.
    pub fn new() -> (d: LowResGlitchDescriptor)
        ensures
            d == (LowResGlitchDescriptor {
                block: 8,
                downsample: DownsampleMode::Interpolate,
                overlay: OverlayMode::Replace,
                quiet_limit: Some(24u16),
                seed: 0,
            }),
    {
        LowResGlitchDescriptor {
            block: 8,
            downsample: DownsampleMode::Interpolate,
            overlay: OverlayMode::Replace,
            quiet_limit: Some(24),
            seed: 0,
        }
    }

    /// The same settings with block side `b`.
    pub fn block(self, b: u32) -> (d: LowResGlitchDescriptor)
        ensures
            d == (LowResGlitchDescriptor { block: b, ..self }),
    {
        LowResGlitchDescriptor { block: b, ..self }
    }

    /// The same settings with mosaic mode `m`.
    pub fn downsample(self, m: DownsampleMode) -> (d: LowResGlitchDescriptor)
        ensures
            d == (LowResGlitchDescriptor { downsample: m, ..self }),
    {
        LowResGlitchDescriptor { downsample: m, ..self }
    }

    /// The same settings with overlay mode `m`.
    pub fn overlay(self, m: OverlayMode) -> (d: LowResGlitchDescriptor)
        ensures
            d == (LowResGlitchDescriptor { overlay: m, ..self }),
    {
        LowResGlitchDescriptor { overlay: m, ..self }
    }

    /// The same settings with change limit `l` (see [`LowResGlitchDescriptor::quiet_limit`]).
    pub fn quiet_limit(self, l: Option<u16>) -> (d: LowResGlitchDescriptor)
        ensures
            d == (LowResGlitchDescriptor { quiet_limit: l, ..self }),
    {
        LowResGlitchDescriptor { quiet_limit: l, ..self }
    }

    /// The same settings with sampler seed `s`.
    pub fn seed(self, s: u64) -> (d: LowResGlitchDescriptor)
        ensures
            d == (LowResGlitchDescriptor { seed: s, ..self }),
    {
        LowResGlitchDescriptor { seed: s, ..self }
    }
}

/// `n / b` rounded up.
pub open spec fn ceil_div(n: int, b: int) -> int {
    n / b + if n % b == 0 { 0int } else { 1int }
}

/// The smaller of `a` and `b`.
pub open spec fn min_int(a: int, b: int) -> int {
    if a <= b { a } else { b }
}

/// Sum of channel `c` over the pixels `x0..x1` of row `y`.
pub open spec fn row_sum(f: Frame, c: int, y: int, x0: int, x1: int) -> int
    decreases x1 - x0,
{
    if x1 <= x0 {
        0
    } else {
        row_sum(f, c, y, x0, x1 - 1) + channel(f.at(x1 - 1, y), c)
    }
}

/// Sum of channel `c` over the rectangle `x0..x1` × `y0..y1`.
pub open spec fn rect_sum(f: Frame, c: int, x0: int, x1: int, y0: int, y1: int) -> int
    decreases y1 - y0,
{
    if y1 <= y0 {
        0
    } else {
        rect_sum(f, c, x0, x1, y0, y1 - 1) + row_sum(f, c, y1 - 1, x0, x1)
    }
}

proof fn lemma_row_sum_bounds(f: Frame, c: int, y: int, x0: int, x1: int)
    requires
        x0 <= x1,
    ensures
        0 <= row_sum(f, c, y, x0, x1) <= 255 * (x1 - x0),
    decreases x1 - x0,
{
    if x1 > x0 {
        lemma_row_sum_bounds(f, c, y, x0, x1 - 1);
    }
}

proof fn lemma_rect_sum_bounds(f: Frame, c: int, x0: int, x1: int, y0: int, y1: int)
    requires
        x0 <= x1,
        y0 <= y1,
    ensures
        0 <= rect_sum(f, c, x0, x1, y0, y1) <= 255 * ((x1 - x0) * (y1 - y0)),
    decreases y1 - y0,
{
    if y1 > y0 {
        lemma_rect_sum_bounds(f, c, x0, x1, y0, y1 - 1);
        lemma_row_sum_bounds(f, c, y1 - 1, x0, x1);
        assert((x1 - x0) * (y1 - y0) == (x1 - x0) * (y1 - 1 - y0) + (x1 - x0)) by (nonlinear_arith);
    }
}

/// Channel-wise average, rounded down, of the rectangle `x0..x1` × `y0..y1`.
pub open spec fn block_mean(f: Frame, x0: int, x1: int, y0: int, y1: int) -> Pixel {
    let n = (x1 - x0) * (y1 - y0);
    Pixel {
        r: (rect_sum(f, 0, x0, x1, y0, y1) / n) as u8,
        g: (rect_sum(f, 1, x0, x1, y0, y1) / n) as u8,
        b: (rect_sum(f, 2, x0, x1, y0, y1) / n) as u8,
        a: (rect_sum(f, 3, x0, x1, y0, y1) / n) as u8,
    }
}

/// Mosaic pixel `(bx, by)` of `f` cut into `b`-pixel blocks.
pub open spec fn mosaic_pixel(f: Frame, b: int, mode: DownsampleMode, seed: u64, bx: int, by: int) -> Pixel {
    let w = f.spec_width() as int;
    let h = f.spec_height() as int;
    let x0 = bx * b;
    let y0 = by * b;
    let x1 = min_int(x0 + b, w);
    let y1 = min_int(y0 + b, h);
    match mode {
        DownsampleMode::Interpolate => block_mean(f, x0, x1, y0, y1),
        DownsampleMode::Nearest => f.at(min_int(x0 + b / 2, w - 1), min_int(y0 + b / 2, h - 1)),
        DownsampleMode::Random => {
            let row_seed = seed ^ (by as u64);
            let rx = x0 + xoshiro_draw(row_seed, (2 * bx) as nat) as int % (x1 - x0);
            let ry = y0 + xoshiro_draw(row_seed, (2 * bx + 1) as nat) as int % (y1 - y0);
            f.at(min_int(rx, w - 1), min_int(ry, h - 1))
        },
    }
}

/// `low` is the mosaic of `f` with `b`-pixel blocks: one pixel per block, the blocks of the
/// last row and column cut at the frame's edge.
pub open spec fn is_mosaic_of(low: &Frame, f: &Frame, b: int, mode: DownsampleMode, seed: u64) -> bool {
    &&& low.spec_width() == ceil_div(f.spec_width() as int, b)
    &&& low.spec_height() == ceil_div(f.spec_height() as int, b)
    &&& low.spec_ctx() == f.spec_ctx()
    &&& forall|bx: int, by: int| #[trigger]
        low.contains(bx, by) ==> low.at(bx, by) == mosaic_pixel(*f, b, mode, seed, bx, by)
}

proof fn lemma_block_start(bx: int, b: int, n: int)
    requires
        b >= 1,
        n >= 0,
        0 <= bx < ceil_div(n, b),
    ensures
        0 <= bx * b < n,
        bx * b + min_int(b, n) >= min_int(bx * b + b, n),
{
    vstd::arithmetic::div_mod::lemma_fundamental_div_mod(n, b);
    let q = n / b;
    let r = n % b;
    if r == 0 {
        assert(bx * b < n) by (nonlinear_arith)
            requires bx + 1 <= q, n == b * q + r, r == 0, b >= 1, bx >= 0;
    } else {
        assert(bx * b < n) by (nonlinear_arith)
            requires bx <= q, n == b * q + r, 0 < r < b, b >= 1, bx >= 0;
    }
    assert(0 <= bx * b) by (nonlinear_arith)
        requires bx >= 0, b >= 1;
}

proof fn lemma_ceil_div_bounds(n: int, b: int)
    requires
        b >= 1,
        n >= 0,
    ensures
        0 <= ceil_div(n, b) <= n,
        n > 0 ==> ceil_div(n, b) >= 1,
{
    vstd::arithmetic::div_mod::lemma_fundamental_div_mod(n, b);
    assert(n / b <= n) by (nonlinear_arith)
        requires b >= 1, n >= 0, n == b * (n / b) + n % b, 0 <= n % b < b;
    if n % b != 0 {
        assert(n / b + 1 <= n) by (nonlinear_arith)
            requires b >= 1, n >= 0, n == b * (n / b) + n % b, 0 < n % b < b;
    }
    if n > 0 && n % b == 0 {
        assert(n / b >= 1) by (nonlinear_arith)
            requires b >= 1, n > 0, n == b * (n / b) + n % b, n % b == 0;
    }
}

proof fn lemma_mean_bound(s: int, n: int)
    requires
        0 <= s <= 255 * n,
        n >= 1,
    ensures
        0 <= s / n <= 255,
{
    assert(s / n <= 255) by (nonlinear_arith)
        requires 0 <= s <= 255 * n, n >= 1;
    assert(0 <= s / n) by (nonlinear_arith)
        requires 0 <= s, n >= 1;
}

/// Channel-wise mean of one block.
fn block_average(f: &Frame, x0: u32, x1: u32, y0: u32, y1: u32) -> (p: Pixel)
    requires
        x0 < x1 <= f.spec_width(),
        y0 < y1 <= f.spec_height(),
    ensures
        p == block_mean(*f, x0 as int, x1 as int, y0 as int, y1 as int),
{
    let ghost fr = *f;
    let ghost width = (x1 - x0) as int;
    let (mut sr, mut sg, mut sb, mut sa) = (0u128, 0u128, 0u128, 0u128);
    let mut n: u64 = 0;
    let mut y = y0;
    proof {
        assert(width * (y1 - y0) <= 0xffff_ffffu64 * 0xffff_ffffu64) by (nonlinear_arith)
            requires 0 <= width <= 0xffff_ffffu64, 0 <= y1 - y0 <= 0xffff_ffffu64;
    }
    while y < y1
        invariant
            x0 < x1 <= f.spec_width(),
            y0 <= y <= y1 <= f.spec_height(),
            width == x1 - x0,
            width * (y1 - y0) <= 0xffff_ffffu64 * 0xffff_ffffu64,
            fr == *f,
            n == width * (y - y0),
            sr == rect_sum(fr, 0, x0 as int, x1 as int, y0 as int, y as int),
            sg == rect_sum(fr, 1, x0 as int, x1 as int, y0 as int, y as int),
            sb == rect_sum(fr, 2, x0 as int, x1 as int, y0 as int, y as int),
            sa == rect_sum(fr, 3, x0 as int, x1 as int, y0 as int, y as int),
        decreases y1 - y,
    {
        let mut x = x0;
        proof {
            assert(width * (y - y0) + width <= width * (y1 - y0)) by (nonlinear_arith)
                requires y < y1, width >= 0, y0 <= y;
            assert(width * (y1 - y0) <= width * (y1 - y0) * 255) by (nonlinear_arith)
                requires width >= 0, y1 >= y0;
            lemma_rect_sum_bounds(fr, 0, x0 as int, x1 as int, y0 as int, y as int);
            lemma_rect_sum_bounds(fr, 1, x0 as int, x1 as int, y0 as int, y as int);
            lemma_rect_sum_bounds(fr, 2, x0 as int, x1 as int, y0 as int, y as int);
            lemma_rect_sum_bounds(fr, 3, x0 as int, x1 as int, y0 as int, y as int);
            assert(255 * (width * (y - y0)) + 255 * width <= width * (y1 - y0) * 255) by (nonlinear_arith)
                requires y < y1, width >= 0, y0 <= y;
        }
        while x < x1
            invariant
                x0 <= x <= x1 <= f.spec_width(),
                y0 <= y < y1 <= f.spec_height(),
                width == x1 - x0,
                width * (y1 - y0) <= 0xffff_ffffu64 * 0xffff_ffffu64,
                255 * (width * (y - y0)) + 255 * width <= width * (y1 - y0) * 255,
                fr == *f,
                n == width * (y - y0) + (x - x0),
                sr == rect_sum(fr, 0, x0 as int, x1 as int, y0 as int, y as int) + row_sum(fr, 0, y as int, x0 as int, x as int),
                sg == rect_sum(fr, 1, x0 as int, x1 as int, y0 as int, y as int) + row_sum(fr, 1, y as int, x0 as int, x as int),
                sb == rect_sum(fr, 2, x0 as int, x1 as int, y0 as int, y as int) + row_sum(fr, 2, y as int, x0 as int, x as int),
                sa == rect_sum(fr, 3, x0 as int, x1 as int, y0 as int, y as int) + row_sum(fr, 3, y as int, x0 as int, x as int),
                rect_sum(fr, 0, x0 as int, x1 as int, y0 as int, y as int) <= 255 * (width * (y - y0)),
                rect_sum(fr, 1, x0 as int, x1 as int, y0 as int, y as int) <= 255 * (width * (y - y0)),
                rect_sum(fr, 2, x0 as int, x1 as int, y0 as int, y as int) <= 255 * (width * (y - y0)),
                rect_sum(fr, 3, x0 as int, x1 as int, y0 as int, y as int) <= 255 * (width * (y - y0)),
            decreases x1 - x,
        {
            proof {
                lemma_row_sum_bounds(fr, 0, y as int, x0 as int, x as int);
                lemma_row_sum_bounds(fr, 1, y as int, x0 as int, x as int);
                lemma_row_sum_bounds(fr, 2, y as int, x0 as int, x as int);
                lemma_row_sum_bounds(fr, 3, y as int, x0 as int, x as int);
            }
            let p = f.get_pixel(x, y);
            sr = sr + p.r as u128;
            sg = sg + p.g as u128;
            sb = sb + p.b as u128;
            sa = sa + p.a as u128;
            n = n + 1;
            x = x + 1;
        }
        proof {
            assert(width * (y - y0) + width == width * (y + 1 - y0)) by (nonlinear_arith);
        }
        y = y + 1;
    }
    proof {
        lemma_rect_sum_bounds(fr, 0, x0 as int, x1 as int, y0 as int, y1 as int);
        lemma_rect_sum_bounds(fr, 1, x0 as int, x1 as int, y0 as int, y1 as int);
        lemma_rect_sum_bounds(fr, 2, x0 as int, x1 as int, y0 as int, y1 as int);
        lemma_rect_sum_bounds(fr, 3, x0 as int, x1 as int, y0 as int, y1 as int);
        assert(n >= 1) by (nonlinear_arith)
            requires n == width * (y1 - y0), width >= 1, y1 > y0;
        lemma_mean_bound(sr as int, n as int);
        lemma_mean_bound(sg as int, n as int);
        lemma_mean_bound(sb as int, n as int);
        lemma_mean_bound(sa as int, n as int);
    }
    let d = n as u128;
    Pixel::new((sr / d) as u8, (sg / d) as u8, (sb / d) as u8, (sa / d) as u8)
}

/// The mosaic of `frame` with `b`-pixel blocks (`ceil(w / b)` × `ceil(h / b)` pixels), each block
/// reduced to one pixel as `mode` says. The random sampler reseeds for every mosaic row `by`
/// with `seed ^ by` and draws two values per block, the first for the column and the second for
/// the row of the sampled pixel.
pub fn downsample(frame: &Frame, b: u32, mode: DownsampleMode, seed: u64) -> (low: Frame)
    requires
        b >= 1,
    ensures
        is_mosaic_of(&low, frame, b as int, mode, seed),
        low.well_formed(),
{
    let w = frame.width();
    let h = frame.height();
    proof {
        lemma_ceil_div_bounds(w as int, b as int);
        lemma_ceil_div_bounds(h as int, b as int);
    }
    let lw = w / b + if w % b == 0 { 0 } else { 1 };
    let lh = h / b + if h % b == 0 { 0 } else { 1 };
    proof {
        assert(lw as int * lh as int <= w as int * h as int) by (nonlinear_arith)
            requires 0 <= lw <= w, 0 <= lh <= h;
    }
    let mut data: Vec<Pixel> = Vec::new();
    let mut by: u32 = 0;
    while by < lh
        invariant
            w == frame.spec_width(),
            h == frame.spec_height(),
            frame.well_formed(),
            b >= 1,
            lw == ceil_div(w as int, b as int),
            lh == ceil_div(h as int, b as int),
            lw as int * lh as int <= w as int * h as int,
            by <= lh,
            data.len() == by * lw,
            forall|k: int|
                0 <= k < data.len() ==> #[trigger] data@[k] == mosaic_pixel(
                    *frame,
                    b as int,
                    mode,
                    seed,
                    k % lw as int,
                    k / lw as int,
                ),
        decreases lh - by,
    {
        proof {
            lemma_block_start(by as int, b as int, h as int);
        }
        let y0 = by * b;
        let y1: u32 = if (y0 as u64) + (b as u64) < h as u64 { y0 + b } else { h };
        let mut rng = SeededRng::new(seed ^ by as u64);
        let mut bx: u32 = 0;
        while bx < lw
            invariant
                w == frame.spec_width(),
                h == frame.spec_height(),
                frame.well_formed(),
                b >= 1,
                    lw == ceil_div(w as int, b as int),
                lh == ceil_div(h as int, b as int),
                lw as int * lh as int <= w as int * h as int,
                by < lh,
                y0 == by * b,
                y1 == min_int(y0 + b, h as int),
                y0 < y1,
                y1 - y0 <= min_int(b as int, h as int),
                bx <= lw,
                rng.seed() == seed ^ (by as u64),
                rng.drawn() == if mode == DownsampleMode::Random { 2 * bx as int } else { 0 },
                data.len() == by * lw + bx,
                forall|k: int|
                    0 <= k < data.len() ==> #[trigger] data@[k] == mosaic_pixel(
                        *frame,
                        b as int,
                        mode,
                        seed,
                        k % lw as int,
                        k / lw as int,
                    ),
            decreases lw - bx,
        {
            proof {
                lemma_block_start(bx as int, b as int, w as int);
            }
            let x0 = bx * b;
            let x1: u32 = if (x0 as u64) + (b as u64) < w as u64 { x0 + b } else { w };
            let p = match mode {
                DownsampleMode::Interpolate => {
                    block_average(frame, x0, x1, y0, y1)
                },
                DownsampleMode::Nearest => {
                    let cx64 = x0 as u64 + (b / 2) as u64;
                    let cy64 = y0 as u64 + (b / 2) as u64;
                    let cx: u32 = if cx64 < (w - 1) as u64 { cx64 as u32 } else { w - 1 };
                    let cy: u32 = if cy64 < (h - 1) as u64 { cy64 as u32 } else { h - 1 };
                    frame.get_pixel(cx, cy)
                },
                DownsampleMode::Random => {
                    let r1 = rng.next_u32();
                    let r2 = rng.next_u32();
                    let rx = x0 + (r1 % (x1 - x0));
                    let ry = y0 + (r2 % (y1 - y0));
                    let cx = if rx < w - 1 { rx } else { w - 1 };
                    let cy = if ry < h - 1 { ry } else { h - 1 };
                    frame.get_pixel(cx, cy)
                },
            };
            proof {
                crate::frame::lemma_offset_split(bx as int, by as int, lw as int);
                assert(p == mosaic_pixel(*frame, b as int, mode, seed, bx as int, by as int));
            }
            data.push(p);
            bx = bx + 1;
        }
        proof {
            assert((by + 1) * lw == by * lw + lw) by (nonlinear_arith);
        }
        by = by + 1;
    }
    proof {
        assert(data.len() == lw as int * lh as int) by (nonlinear_arith)
            requires data.len() == by * lw, by == lh;
    }
    let low = Frame::from_rgba(lw, lh, data, frame.ctx());
    proof {
        assert forall|bx: int, by: int| #[trigger] low.contains(bx, by) implies low.at(bx, by)
            == mosaic_pixel(*frame, b as int, mode, seed, bx, by) by {
            crate::frame::lemma_offset_in_bounds(bx, by, lw as int, lh as int);
            crate::frame::lemma_offset_split(bx, by, lw as int);
        }
    }
    low
}

/// `|a - b|`.
pub open spec fn abs_diff(a: u8, b: u8) -> int {
    if a >= b { a - b } else { b - a }
}

/// Sum of the absolute differences of the colour channels of two block pixels.
pub open spec fn change_sum(i: Pixel, o: Pixel) -> int {
    abs_diff(i.r, o.r) + abs_diff(i.g, o.g) + abs_diff(i.b, o.b)
}

/// The block went from `i` to `o` by more than `limit` allows.
pub open spec fn block_changed(i: Pixel, o: Pixel, limit: Option<u16>) -> bool {
    match limit {
        None => true,
        Some(l) => change_sum(i, o) > l,
    }
}

/// `base + (oc - ic)` clamped to `0..=255`.
pub open spec fn add_change(base: u8, oc: u8, ic: u8) -> u8 {
    let v = base + oc - ic;
    if v < 0 {
        0
    } else if v > 255 {
        255
    } else {
        v as u8
    }
}

/// Output pixel for a full-resolution pixel `px` whose block went from `i` to `o`.
pub open spec fn overlay_pixel(px: Pixel, i: Pixel, o: Pixel, limit: Option<u16>, mode: OverlayMode) -> Pixel {
    if !block_changed(i, o, limit) {
        px
    } else {
        match mode {
            OverlayMode::Replace => Pixel { r: o.r, g: o.g, b: o.b, a: px.a },
            OverlayMode::Add => Pixel {
                r: add_change(px.r, o.r, i.r),
                g: add_change(px.g, o.g, i.g),
                b: add_change(px.b, o.b, i.b),
                a: px.a,
            },
        }
    }
}

/// `out` is `frame` with every pixel overlaid from its block of `b` pixels: the block's mosaic
/// pixel before (`low_in`) and after (`low_out`) the inner node, block indices clamped to the
/// mosaic.
pub open spec fn is_overlay_of(
    out: &Frame,
    frame: &Frame,
    low_in: &Frame,
    low_out: &Frame,
    b: int,
    limit: Option<u16>,
    mode: OverlayMode,
) -> bool {
    &&& out.spec_width() == frame.spec_width()
    &&& out.spec_height() == frame.spec_height()
    &&& out.spec_ctx() == frame.spec_ctx()
    &&& forall|x: int, y: int| #[trigger]
        frame.contains(x, y) ==> {
            let bx = min_int(x / b, low_in.spec_width() - 1);
            let by = min_int(y / b, low_in.spec_height() - 1);
            out.at(x, y) == overlay_pixel(frame.at(x, y), low_in.at(bx, by), low_out.at(bx, by), limit, mode)
        }
}

fn abs_diff_u8(a: u8, b: u8) -> (d: u16)
    ensures
        d == abs_diff(a, b),
{
    if a >= b { (a - b) as u16 } else { (b - a) as u16 }
}

fn overlay_one(px: Pixel, i: Pixel, o: Pixel, limit: Option<u16>, mode: OverlayMode) -> (p: Pixel)
    ensures
        p == overlay_pixel(px, i, o, limit, mode),
{
    let sum = abs_diff_u8(i.r, o.r) + abs_diff_u8(i.g, o.g) + abs_diff_u8(i.b, o.b);
    let changed = match limit {
        None => true,
        Some(l) => sum > l,
    };
    if !changed {
        return px;
    }
    match mode {
        OverlayMode::Replace => Pixel::new(o.r, o.g, o.b, px.a),
        OverlayMode::Add => {
            let r = (px.r as i16 + (o.r as i16 - i.r as i16));
            let g = (px.g as i16 + (o.g as i16 - i.g as i16));
            let bl = (px.b as i16 + (o.b as i16 - i.b as i16));
            Pixel::new(clamp_u8(r), clamp_u8(g), clamp_u8(bl), px.a)
        },
    }
}

fn clamp_u8(v: i16) -> (c: u8)
    ensures
        c == (if v < 0 { 0 } else if v > 255 { 255 } else { v as u8 }),
{
    if v < 0 {
        0
    } else if v > 255 {
        255
    } else {
        v as u8
    }
}

/// Writes the changed blocks back into `frame`: every pixel `(x, y)` takes its block
/// `(min(x / b, mw - 1), min(y / b, mh - 1))` of the `mw` × `mh` mosaic `low_in` and the same
/// block of `low_out` (the mosaic after the inner node); where the block changed beyond `limit`
/// the pixel is replaced or shifted as `mode` says, else it stays.
pub fn overlay_changed_blocks(
    frame: Frame,
    low_in: &Frame,
    low_out: &Frame,
    b: u32,
    limit: Option<u16>,
    mode: OverlayMode,
) -> (out: Frame)
    requires
        b >= 1,
        low_in.spec_width() >= 1,
        low_in.spec_height() >= 1,
        low_out.spec_width() >= low_in.spec_width(),
        low_out.spec_height() >= low_in.spec_height(),
    ensures
        is_overlay_of(&out, &frame, low_in, low_out, b as int, limit, mode),
        out.well_formed(),
{
    let ghost original = frame;
    let mut frame = frame;
    let h = frame.height();
    let w = frame.width();
    let mw = low_in.width();
    let mh = low_in.height();
    let mut y: u32 = 0;
    while y < h
        invariant
            h == original.spec_height(),
            w == original.spec_width(),
            mw == low_in.spec_width(),
            mh == low_in.spec_height(),
            mw >= 1,
            mh >= 1,
            b >= 1,
            low_out.spec_width() >= mw,
            low_out.spec_height() >= mh,
            frame.spec_width() == w,
            frame.spec_height() == h,
            frame.spec_ctx() == original.spec_ctx(),
            original.well_formed(),
            frame.pixels().len() == original.pixels().len(),
            y <= h,
            forall|xx: int, yy: int|
                #![trigger frame.at(xx, yy)]
                original.contains(xx, yy) ==> frame.at(xx, yy) == if yy < y {
                    overlay_pixel(
                        original.at(xx, yy),
                        low_in.at(min_int(xx / b as int, mw - 1), min_int(yy / b as int, mh - 1)),
                        low_out.at(min_int(xx / b as int, mw - 1), min_int(yy / b as int, mh - 1)),
                        limit,
                        mode,
                    )
                } else {
                    original.at(xx, yy)
                },
        decreases h - y,
    {
        let by = if y / b < mh - 1 { y / b } else { mh - 1 };
        let mut x: u32 = 0;
        while x < w
            invariant
                h == original.spec_height(),
                w == original.spec_width(),
                mw == low_in.spec_width(),
                mh == low_in.spec_height(),
                mw >= 1,
                mh >= 1,
                b >= 1,
                low_out.spec_width() >= mw,
                low_out.spec_height() >= mh,
                by == min_int(y as int / b as int, mh - 1),
                frame.spec_width() == w,
                frame.spec_height() == h,
                frame.spec_ctx() == original.spec_ctx(),
                original.well_formed(),
                frame.pixels().len() == original.pixels().len(),
                y < h,
                x <= w,
                forall|xx: int, yy: int|
                    #![trigger frame.at(xx, yy)]
                    original.contains(xx, yy) ==> frame.at(xx, yy) == if yy < y || (yy == y
                        && xx < x) {
                        overlay_pixel(
                            original.at(xx, yy),
                            low_in.at(min_int(xx / b as int, mw - 1), min_int(yy / b as int, mh - 1)),
                            low_out.at(min_int(xx / b as int, mw - 1), min_int(yy / b as int, mh - 1)),
                            limit,
                            mode,
                        )
                    } else {
                        original.at(xx, yy)
                    },
            decreases w - x,
        {
            proof {
                crate::frame::lemma_offset_in_bounds(x as int, y as int, w as int, h as int);
            }
            let bx = if x / b < mw - 1 { x / b } else { mw - 1 };
            let px = frame.get_pixel(x, y);
            let i = low_in.get_pixel(bx, by);
            let o = low_out.get_pixel(bx, by);
            let np = overlay_one(px, i, o, limit, mode);
            let ghost before = frame;
            frame.set_pixel(x, y, np);
            proof {
                assert forall|xx: int, yy: int|
                    #![trigger frame.at(xx, yy)]
                    original.contains(xx, yy) implies frame.at(xx, yy) == if yy < y || (yy == y
                        && xx < x + 1) {
                        overlay_pixel(
                            original.at(xx, yy),
                            low_in.at(min_int(xx / b as int, mw - 1), min_int(yy / b as int, mh - 1)),
                            low_out.at(min_int(xx / b as int, mw - 1), min_int(yy / b as int, mh - 1)),
                            limit,
                            mode,
                        )
                    } else {
                        original.at(xx, yy)
                    } by {
                    crate::frame::lemma_offset_in_bounds(xx, yy, w as int, h as int);
                    crate::frame::lemma_offset_split(xx, yy, w as int);
                    crate::frame::lemma_offset_split(x as int, y as int, w as int);
                    assert(before.at(xx, yy) == if yy < y || (yy == y && xx < x) {
                        overlay_pixel(
                            original.at(xx, yy),
                            low_in.at(min_int(xx / b as int, mw - 1), min_int(yy / b as int, mh - 1)),
                            low_out.at(min_int(xx / b as int, mw - 1), min_int(yy / b as int, mh - 1)),
                            limit,
                            mode,
                        )
                    } else {
                        original.at(xx, yy)
                    });
                }
            }
            x += 1;
        }
        y += 1;
    }
    frame
}

/// The node is left out and the frame passes through unchanged: the frame is empty.
pub open spec fn glitch_passes_through(frame: &Frame, desc: LowResGlitchDescriptor) -> bool {
    frame.spec_width() == 0 || frame.spec_height() == 0
}

/// `out` is the glitch of `frame` under `d`, where the mosaic `low_in` came back from the inner
/// node as `low_out`: the changed blocks written back, or `frame` itself when `low_out` is
/// smaller than `low_in`.
pub open spec fn is_glitch_of(
    out: &Frame,
    frame: &Frame,
    d: LowResGlitchDescriptor,
    low_in: &Frame,
    low_out: &Frame,
) -> bool {
    let b = if d.block == 0 { 1int } else { d.block as int };
    &&& is_mosaic_of(low_in, frame, b, d.downsample, d.seed)
    &&& if low_out.spec_width() < low_in.spec_width() || low_out.spec_height()
        < low_in.spec_height() {
        *out == *frame
    } else {
        is_overlay_of(out, frame, low_in, low_out, b, d.quiet_limit, d.overlay)
    }
}

/// Node that glitches a low-resolution mosaic of the frame with an inner node and writes back
/// only the blocks that changed significantly. The inner node runs on the mosaic, so its cost
/// drops to about `1 / block²`; with the identity inner node `()` and a limit, nothing changes.
pub struct LowResGlitch<P> {
    desc: LowResGlitchDescriptor,
    inner: P,
}

impl<P> LowResGlitch<P> {
    /// The node's settings.
    pub closed spec fn descriptor(&self) -> LowResGlitchDescriptor {
        self.desc
    }

    /// The inner node.
    pub closed spec fn inner(&self) -> P {
        self.inner
    }
}

impl<P: Process> LowResGlitch<P> {
    /// A node with settings `desc` around the inner node `inner`.
    pub fn new(desc: LowResGlitchDescriptor, inner: P) -> (g: Self)
        ensures
            g.descriptor() == desc,
            g.inner() == inner,
    {
        LowResGlitch { desc, inner }
    }
}

impl<P: Process> Process for LowResGlitch<P> {
    /// `frame` itself when the node is left out; otherwise the glitch of `frame` for a mosaic
    /// that the inner node may return, under `ctx`, for the mosaic of `frame`.
    open spec fn processes(&self, frame: Frame, ctx: FrameCtx, out: Frame) -> bool {
        if glitch_passes_through(&frame, self.descriptor()) {
            out == frame
        } else {
            exists|low_in: Frame, low_out: Frame|
                #![trigger is_glitch_of(&out, &frame, self.descriptor(), &low_in, &low_out)]
                self.inner().processes(low_in, ctx, low_out) && is_glitch_of(
                    &out,
                    &frame,
                    self.descriptor(),
                    &low_in,
                    &low_out,
                )
        }
    }

    /// Mosaic (blocks of `max(block, 1)` pixels), inner node on a copy of the mosaic, then the
    /// changed blocks written back. The frame passes through unchanged when it is empty or when
    /// the inner node returns a mosaic smaller than the one it was given.
    fn process(&mut self, frame: Frame, ctx: FrameCtx) -> (out: Frame)
        ensures
            final(self).descriptor() == old(self).descriptor(),
    {
        let w = frame.width();
        let h = frame.height();
        if w == 0 || h == 0 {
            return frame;
        }
        let b = if self.desc.block == 0 { 1 } else { self.desc.block };
        let low_in = downsample(&frame, b, self.desc.downsample, self.desc.seed);
        let copy = low_in.clone();
        let ghost c = copy;
        let low_out = self.inner.process(copy, ctx);
        proof {
            lemma_ceil_div_bounds(w as int, b as int);
            lemma_ceil_div_bounds(h as int, b as int);
            let d = self.desc;
            assert forall|bx: int, by: int| #[trigger] c.contains(bx, by) implies c.at(bx, by)
                == mosaic_pixel(frame, b as int, d.downsample, d.seed, bx, by) by {
                assert(low_in.contains(bx, by));
            }
            assert(is_mosaic_of(&c, &frame, b as int, d.downsample, d.seed));
        }
        if low_out.width() < low_in.width() || low_out.height() < low_in.height() {
            proof {
                assert(is_glitch_of(&frame, &frame, self.desc, &c, &low_out));
            }
            return frame;
        }
        let ghost fr = frame;
        let out = overlay_changed_blocks(
            frame,
            &low_in,
            &low_out,
            b,
            self.desc.quiet_limit,
            self.desc.overlay,
        );
        proof {
            assert(is_overlay_of(&out, &fr, &low_in, &low_out, b as int, self.desc.quiet_limit, self.desc.overlay));
            assert forall|x: int, y: int| #[trigger] fr.contains(x, y) implies {
                let bx = min_int(x / b as int, c.spec_width() - 1);
                let by = min_int(y / b as int, c.spec_height() - 1);
                out.at(x, y) == overlay_pixel(fr.at(x, y), c.at(bx, by), low_out.at(bx, by), self.desc.quiet_limit, self.desc.overlay)
            } by {
                let bx = min_int(x / b as int, c.spec_width() - 1);
                let by = min_int(y / b as int, c.spec_height() - 1);
                assert(low_in.at(bx, by) == c.at(bx, by));
            }
            assert(is_glitch_of(&out, &fr, self.desc, &c, &low_out));
        }
        out
    }
}

/// With the identity inner node and a change limit, the node changes nothing: the mosaic comes
/// back as it went in, so no block counts as changed.
pub proof fn lemma_identity_inner_changes_nothing(
    out: &Frame,
    frame: &Frame,
    low_in: &Frame,
    b: int,
    limit: u16,
    mode: OverlayMode,
)
    requires
        out.well_formed(),
        frame.well_formed(),
        is_overlay_of(out, frame, low_in, low_in, b, Some(limit), mode),
    ensures
        out.pixels() == frame.pixels(),
{
    assert forall|x: int, y: int| #[trigger] frame.contains(x, y) implies out.at(x, y) == frame.at(x, y) by {
    }
    crate::frame::lemma_same_pixels(out, frame);
}

proof fn lemma_row_sum_flat(f: Frame, c: int, y: int, x0: int, x1: int, v: int)
    requires
        x0 <= x1,
        forall|x: int| x0 <= x < x1 ==> channel(#[trigger] f.at(x, y), c) == v,
    ensures
        row_sum(f, c, y, x0, x1) == v * (x1 - x0),
    decreases x1 - x0,
{
    if x1 > x0 {
        lemma_row_sum_flat(f, c, y, x0, x1 - 1, v);
        assert(channel(f.at(x1 - 1, y), c) == v);
        assert(v * (x1 - 1 - x0) + v == v * (x1 - x0)) by (nonlinear_arith);
    } else {
        assert(v * (x1 - x0) == 0) by (nonlinear_arith)
            requires x1 == x0;
    }
}

proof fn lemma_rect_sum_flat(f: Frame, c: int, x0: int, x1: int, y0: int, y1: int, v: int)
    requires
        x0 <= x1,
        y0 <= y1,
        forall|x: int, y: int| x0 <= x < x1 && y0 <= y < y1 ==> channel(#[trigger] f.at(x, y), c) == v,
    ensures
        rect_sum(f, c, x0, x1, y0, y1) == v * ((x1 - x0) * (y1 - y0)),
    decreases y1 - y0,
{
    if y1 > y0 {
        lemma_rect_sum_flat(f, c, x0, x1, y0, y1 - 1, v);
        lemma_row_sum_flat(f, c, y1 - 1, x0, x1, v);
        assert(v * ((x1 - x0) * (y1 - 1 - y0)) + v * (x1 - x0) == v * ((x1 - x0) * (y1 - y0)))
            by (nonlinear_arith);
    } else {
        assert(v * ((x1 - x0) * (y1 - y0)) == 0) by (nonlinear_arith)
            requires y1 == y0;
    }
}

proof fn lemma_flat_mean(f: Frame, x0: int, x1: int, y0: int, y1: int, p: Pixel)
    requires
        x0 < x1,
        y0 < y1,
        forall|x: int, y: int| x0 <= x < x1 && y0 <= y < y1 ==> #[trigger] f.at(x, y) == p,
    ensures
        block_mean(f, x0, x1, y0, y1) == p,
{
    let n = (x1 - x0) * (y1 - y0);
    assert(n >= 1) by (nonlinear_arith)
        requires x0 < x1, y0 < y1, n == (x1 - x0) * (y1 - y0);
    lemma_rect_sum_flat(f, 0, x0, x1, y0, y1, p.r as int);
    lemma_rect_sum_flat(f, 1, x0, x1, y0, y1, p.g as int);
    lemma_rect_sum_flat(f, 2, x0, x1, y0, y1, p.b as int);
    lemma_rect_sum_flat(f, 3, x0, x1, y0, y1, p.a as int);
    vstd::arithmetic::div_mod::lemma_div_multiples_vanish(p.r as int, n);
    vstd::arithmetic::div_mod::lemma_div_multiples_vanish(p.g as int, n);
    vstd::arithmetic::div_mod::lemma_div_multiples_vanish(p.b as int, n);
    vstd::arithmetic::div_mod::lemma_div_multiples_vanish(p.a as int, n);
    assert(p.r as int * n == n * p.r as int) by (nonlinear_arith);
    assert(p.g as int * n == n * p.g as int) by (nonlinear_arith);
    assert(p.b as int * n == n * p.b as int) by (nonlinear_arith);
    assert(p.a as int * n == n * p.a as int) by (nonlinear_arith);
}

/// A frame of one colour gives a mosaic of that colour, whatever the block size and mode.
pub proof fn lemma_flat_frame_flat_mosaic(
    low: &Frame,
    f: &Frame,
    b: int,
    mode: DownsampleMode,
    seed: u64,
    p: Pixel,
)
    requires
        b >= 1,
        is_mosaic_of(low, f, b, mode, seed),
        forall|x: int, y: int| #[trigger] f.contains(x, y) ==> f.at(x, y) == p,
    ensures
        forall|bx: int, by: int| #[trigger] low.contains(bx, by) ==> low.at(bx, by) == p,
{
    let w = f.spec_width() as int;
    let h = f.spec_height() as int;
    assert forall|bx: int, by: int| #[trigger] low.contains(bx, by) implies low.at(bx, by) == p by {
        lemma_block_start(bx, b, w);
        lemma_block_start(by, b, h);
        let x0 = bx * b;
        let y0 = by * b;
        let x1 = min_int(x0 + b, w);
        let y1 = min_int(y0 + b, h);
        assert forall|x: int, y: int| x0 <= x < x1 && y0 <= y < y1 implies #[trigger] f.at(x, y) == p by {
            assert(f.contains(x, y));
        }
        match mode {
            DownsampleMode::Interpolate => {
                lemma_flat_mean(*f, x0, x1, y0, y1, p);
            },
            DownsampleMode::Nearest => {
                assert(f.contains(min_int(x0 + b / 2, w - 1), min_int(y0 + b / 2, h - 1)));
            },
            DownsampleMode::Random => {
                let row_seed = seed ^ (by as u64);
                let rx = x0 + xoshiro_draw(row_seed, (2 * bx) as nat) as int % (x1 - x0);
                let ry = y0 + xoshiro_draw(row_seed, (2 * bx + 1) as nat) as int % (y1 - y0);
                assert(f.contains(min_int(rx, w - 1), min_int(ry, h - 1)));
            },
        }
    }
}

/// The change of a block is the distance between its colours before and after: the sum of the
/// absolute differences of the three colour channels. It is symmetric, so a block that got
/// darker counts as much as one that got brighter, and a block that stayed the same never
/// counts as changed.
pub proof fn lemma_change_is_colour_distance(i: Pixel, o: Pixel, l: u16)
    ensures
        block_changed(i, o, Some(l)) == block_changed(o, i, Some(l)),
        block_changed(i, o, Some(l)) <==> (if o.r >= i.r { o.r - i.r } else { i.r - o.r }) + (if o.g
            >= i.g { o.g - i.g } else { i.g - o.g }) + (if o.b >= i.b { o.b - i.b } else { i.b
            - o.b }) > l,
        !block_changed(i, i, Some(l)),
        block_changed(i, o, None),
{
}

/// Replace overlay: a pixel whose block changed beyond the limit (in either direction) takes the
/// glitched block colour and keeps its alpha; a pixel whose block did not stays as it was.
pub proof fn lemma_replace_writes_back_changed_blocks(
    out: &Frame,
    frame: &Frame,
    low_in: &Frame,
    low_out: &Frame,
    b: int,
    l: u16,
    x: int,
    y: int,
)
    requires
        is_overlay_of(out, frame, low_in, low_out, b, Some(l), OverlayMode::Replace),
        frame.contains(x, y),
    ensures
        ({
            let bx = if x / b < low_in.spec_width() - 1 { x / b } else { low_in.spec_width() - 1 };
            let by = if y / b < low_in.spec_height() - 1 { y / b } else { low_in.spec_height() - 1 };
            let i = low_in.at(bx, by);
            let o = low_out.at(bx, by);
            let p = frame.at(x, y);
            let dist = (if o.r >= i.r { o.r - i.r } else { i.r - o.r }) + (if o.g >= i.g {
                o.g - i.g
            } else {
                i.g - o.g
            }) + (if o.b >= i.b { o.b - i.b } else { i.b - o.b });
            &&& dist > l ==> out.at(x, y) == (Pixel { r: o.r, g: o.g, b: o.b, a: p.a })
            &&& dist <= l ==> out.at(x, y) == p
        }),
{
}

/// Add overlay: a pixel whose block changed beyond the limit is shifted, channel by channel, by
/// the block's change (glitched minus original block colour), clamped to `0..=255`; its alpha
/// stays. So two pixels of one changed block keep their difference wherever nothing clamps. A
/// pixel whose block did not change stays as it was.
pub proof fn lemma_add_shifts_by_the_block_change(
    out: &Frame,
    frame: &Frame,
    low_in: &Frame,
    low_out: &Frame,
    b: int,
    limit: Option<u16>,
    x: int,
    y: int,
)
    requires
        is_overlay_of(out, frame, low_in, low_out, b, limit, OverlayMode::Add),
        frame.contains(x, y),
    ensures
        ({
            let bx = if x / b < low_in.spec_width() - 1 { x / b } else { low_in.spec_width() - 1 };
            let by = if y / b < low_in.spec_height() - 1 { y / b } else { low_in.spec_height() - 1 };
            let i = low_in.at(bx, by);
            let o = low_out.at(bx, by);
            let p = frame.at(x, y);
            let q = out.at(x, y);
            let dist = (if o.r >= i.r { o.r - i.r } else { i.r - o.r }) + (if o.g >= i.g {
                o.g - i.g
            } else {
                i.g - o.g
            }) + (if o.b >= i.b { o.b - i.b } else { i.b - o.b });
            let changed = match limit {
                None => true,
                Some(l) => dist > l,
            };
            &&& changed ==> {
                &&& q.a == p.a
                &&& 0 <= p.r + o.r - i.r <= 255 ==> q.r - p.r == o.r - i.r
                &&& 0 <= p.g + o.g - i.g <= 255 ==> q.g - p.g == o.g - i.g
                &&& 0 <= p.b + o.b - i.b <= 255 ==> q.b - p.b == o.b - i.b
                &&& p.r + o.r - i.r < 0 ==> q.r == 0
                &&& p.g + o.g - i.g < 0 ==> q.g == 0
                &&& p.b + o.b - i.b < 0 ==> q.b == 0
                &&& p.r + o.r - i.r > 255 ==> q.r == 255
                &&& p.g + o.g - i.g > 255 ==> q.g == 255
                &&& p.b + o.b - i.b > 255 ==> q.b == 255
            }
            &&& !changed ==> q == p
        }),
{
}

/// Interpolate mosaic: each channel of a mosaic pixel is the sum of that channel over every
/// pixel of its block (columns `bx*b .. min(bx*b + b, w)`, rows `by*b .. min(by*b + b, h)`)
/// divided by the block's pixel count, rounded down.
pub proof fn lemma_interpolate_mosaic_averages_the_whole_block(
    low: &Frame,
    f: &Frame,
    b: int,
    seed: u64,
    bx: int,
    by: int,
)
    requires
        b >= 1,
        is_mosaic_of(low, f, b, DownsampleMode::Interpolate, seed),
        low.contains(bx, by),
    ensures
        ({
            let w = f.spec_width() as int;
            let h = f.spec_height() as int;
            let x1 = if bx * b + b < w { bx * b + b } else { w };
            let y1 = if by * b + b < h { by * b + b } else { h };
            let n = (x1 - bx * b) * (y1 - by * b);
            &&& n >= 1
            &&& low.at(bx, by).r == rect_sum(*f, 0, bx * b, x1, by * b, y1) / n
            &&& low.at(bx, by).g == rect_sum(*f, 1, bx * b, x1, by * b, y1) / n
            &&& low.at(bx, by).b == rect_sum(*f, 2, bx * b, x1, by * b, y1) / n
            &&& low.at(bx, by).a == rect_sum(*f, 3, bx * b, x1, by * b, y1) / n
        }),
{
    let w = f.spec_width() as int;
    let h = f.spec_height() as int;
    lemma_block_start(bx, b, w);
    lemma_block_start(by, b, h);
    let x0 = bx * b;
    let y0 = by * b;
    let x1 = if bx * b + b < w { bx * b + b } else { w };
    let y1 = if by * b + b < h { by * b + b } else { h };
    let n = (x1 - x0) * (y1 - y0);
    assert(n >= 1) by (nonlinear_arith)
        requires x1 - x0 >= 1, y1 - y0 >= 1, n == (x1 - x0) * (y1 - y0);
    assert(x0 <= x1 && y0 <= y1);
    lemma_rect_sum_bounds(*f, 0, x0, x1, y0, y1);
    lemma_rect_sum_bounds(*f, 1, x0, x1, y0, y1);
    lemma_rect_sum_bounds(*f, 2, x0, x1, y0, y1);
    lemma_rect_sum_bounds(*f, 3, x0, x1, y0, y1);
    lemma_mean_bound(rect_sum(*f, 0, x0, x1, y0, y1), n);
    lemma_mean_bound(rect_sum(*f, 1, x0, x1, y0, y1), n);
    lemma_mean_bound(rect_sum(*f, 2, x0, x1, y0, y1), n);
    lemma_mean_bound(rect_sum(*f, 3, x0, x1, y0, y1), n);
    assert(low.at(bx, by) == mosaic_pixel(*f, b, DownsampleMode::Interpolate, seed, bx, by));
}

/// Nearest mosaic: a mosaic pixel is the frame's pixel at its block's centre, column
/// `min(bx*b + b/2, w - 1)` and row `min(by*b + b/2, h - 1)`, and that pixel lies inside the
/// block itself.
pub proof fn lemma_nearest_mosaic_takes_its_block_centre(
    low: &Frame,
    f: &Frame,
    b: int,
    seed: u64,
    bx: int,
    by: int,
)
    requires
        b >= 1,
        is_mosaic_of(low, f, b, DownsampleMode::Nearest, seed),
        low.contains(bx, by),
    ensures
        ({
            let w = f.spec_width() as int;
            let h = f.spec_height() as int;
            let cx = if bx * b + b / 2 < w - 1 { bx * b + b / 2 } else { w - 1 };
            let cy = if by * b + b / 2 < h - 1 { by * b + b / 2 } else { h - 1 };
            &&& low.at(bx, by) == f.at(cx, cy)
            &&& bx * b <= cx < bx * b + b && cx < w
            &&& by * b <= cy < by * b + b && cy < h
        }),
{
    let w = f.spec_width() as int;
    let h = f.spec_height() as int;
    lemma_block_start(bx, b, w);
    lemma_block_start(by, b, h);
    assert(low.at(bx, by) == mosaic_pixel(*f, b, DownsampleMode::Nearest, seed, bx, by));
}

/// Random mosaic: a mosaic pixel is a pixel of its own block.
pub proof fn lemma_random_mosaic_samples_its_block(
    low: &Frame,
    f: &Frame,
    b: int,
    seed: u64,
    bx: int,
    by: int,
)
    requires
        b >= 1,
        is_mosaic_of(low, f, b, DownsampleMode::Random, seed),
        low.contains(bx, by),
    ensures
        exists|x: int, y: int|
            bx * b <= x < bx * b + b && x < f.spec_width() && by * b <= y < by * b + b && y
                < f.spec_height() && low.at(bx, by) == #[trigger] f.at(x, y),
{
    let w = f.spec_width() as int;
    let h = f.spec_height() as int;
    lemma_block_start(bx, b, w);
    lemma_block_start(by, b, h);
    let x0 = bx * b;
    let y0 = by * b;
    let x1 = min_int(x0 + b, w);
    let y1 = min_int(y0 + b, h);
    let row_seed = seed ^ (by as u64);
    let rx = x0 + xoshiro_draw(row_seed, (2 * bx) as nat) as int % (x1 - x0);
    let ry = y0 + xoshiro_draw(row_seed, (2 * bx + 1) as nat) as int % (y1 - y0);
    assert(low.at(bx, by) == f.at(min_int(rx, w - 1), min_int(ry, h - 1)));
}

proof fn lemma_row_sum_split(f: Frame, c: int, y: int, x0: int, xm: int, x1: int)
    requires
        x0 <= xm <= x1,
    ensures
        row_sum(f, c, y, x0, x1) == row_sum(f, c, y, x0, xm) + row_sum(f, c, y, xm, x1),
    decreases x1 - xm,
{
    if x1 > xm {
        lemma_row_sum_split(f, c, y, x0, xm, x1 - 1);
    }
}

proof fn lemma_rect_sum_split_rows(f: Frame, c: int, x0: int, x1: int, y0: int, ym: int, y1: int)
    requires
        y0 <= ym <= y1,
    ensures
        rect_sum(f, c, x0, x1, y0, y1) == rect_sum(f, c, x0, x1, y0, ym) + rect_sum(f, c, x0, x1, ym, y1),
    decreases y1 - ym,
{
    if y1 > ym {
        lemma_rect_sum_split_rows(f, c, x0, x1, y0, ym, y1 - 1);
    }
}

proof fn lemma_rect_sum_split_columns(f: Frame, c: int, x0: int, xm: int, x1: int, y0: int, y1: int)
    requires
        x0 <= xm <= x1,
    ensures
        rect_sum(f, c, x0, x1, y0, y1) == rect_sum(f, c, x0, xm, y0, y1) + rect_sum(f, c, xm, x1, y0, y1),
    decreases y1 - y0,
{
    if y1 > y0 {
        lemma_rect_sum_split_columns(f, c, x0, xm, x1, y0, y1 - 1);
        lemma_row_sum_split(f, c, y1 - 1, x0, xm, x1);
    }
}

/// The block sums behind the averaged mosaic add up pixel by pixel: an empty rectangle sums to
/// 0, a single pixel sums to its own channel, and a rectangle split between two rows or two
/// columns sums to the sums of its two parts. These facts fix the sum of every rectangle.
pub proof fn lemma_rect_sum_adds_up_the_pixels(
    f: Frame,
    c: int,
    x0: int,
    xm: int,
    x1: int,
    y0: int,
    ym: int,
    y1: int,
)
    requires
        x0 <= xm <= x1,
        y0 <= ym <= y1,
    ensures
        rect_sum(f, c, x0, x0, y0, y1) == 0,
        rect_sum(f, c, x0, x1, y0, y0) == 0,
        rect_sum(f, c, x0, x0 + 1, y0, y0 + 1) == channel(f.at(x0, y0), c),
        rect_sum(f, c, x0, x1, y0, y1) == rect_sum(f, c, x0, x1, y0, ym) + rect_sum(f, c, x0, x1, ym, y1),
        rect_sum(f, c, x0, x1, y0, y1) == rect_sum(f, c, x0, xm, y0, y1) + rect_sum(f, c, xm, x1, y0, y1),
{
    lemma_rect_sum_split_rows(f, c, x0, x1, y0, ym, y1);
    lemma_rect_sum_split_columns(f, c, x0, xm, x1, y0, y1);
    lemma_rect_sum_no_columns(f, c, x0, y0, y1);
    assert(rect_sum(f, c, x0, x0 + 1, y0, y0 + 1) == rect_sum(f, c, x0, x0 + 1, y0, y0) + row_sum(f, c, y0, x0, x0 + 1));
    assert(row_sum(f, c, y0, x0, x0 + 1) == row_sum(f, c, y0, x0, x0) + channel(f.at(x0, y0), c));
}

proof fn lemma_rect_sum_no_columns(f: Frame, c: int, x0: int, y0: int, y1: int)
    ensures
        rect_sum(f, c, x0, x0, y0, y1) == 0,
    decreases y1 - y0,
{
    if y1 > y0 {
        lemma_rect_sum_no_columns(f, c, x0, y0, y1 - 1);
    }
}

/// The mosaic has one pixel per block: `ceil(w / b)` columns and `ceil(h / b)` rows, so its
/// blocks cover the frame and its last column and row of blocks start inside the frame.
pub proof fn lemma_mosaic_covers_the_frame(low: &Frame, f: &Frame, b: int, mode: DownsampleMode, seed: u64)
    requires
        b >= 1,
        is_mosaic_of(low, f, b, mode, seed),
    ensures
        f.spec_width() <= low.spec_width() * b,
        f.spec_height() <= low.spec_height() * b,
        low.spec_width() >= 1 ==> (low.spec_width() - 1) * b < f.spec_width(),
        low.spec_height() >= 1 ==> (low.spec_height() - 1) * b < f.spec_height(),
{
    lemma_ceil_cover(f.spec_width() as int, b);
    lemma_ceil_cover(f.spec_height() as int, b);
}

proof fn lemma_ceil_cover(n: int, b: int)
    requires
        b >= 1,
        n >= 0,
    ensures
        n <= ceil_div(n, b) * b,
        ceil_div(n, b) >= 1 ==> (ceil_div(n, b) - 1) * b < n,
{
    vstd::arithmetic::div_mod::lemma_fundamental_div_mod(n, b);
    let q = n / b;
    let r = n % b;
    if r == 0 {
        assert(n == q * b) by (nonlinear_arith)
            requires n == b * q + r, r == 0;
        assert(q >= 1 ==> (q - 1) * b < n) by (nonlinear_arith)
            requires n == q * b, b >= 1;
    } else {
        assert(n <= (q + 1) * b) by (nonlinear_arith)
            requires n == b * q + r, 0 < r < b;
        assert(q * b < n) by (nonlinear_arith)
            requires n == b * q + r, 0 < r < b;
    }
}

} // verus!
