use video_sandbox::frame::{Frame, FrameCtx};
use video_sandbox::low_res_glitch::{
    downsample, DownsampleMode, LowResGlitch, LowResGlitchDescriptor, OverlayMode,
};
use video_sandbox::pixel::Pixel;
use video_sandbox::process::Process;

fn ctx() -> FrameCtx {
    FrameCtx { index: 0, pts: 0, seconds_bits: 0.0f32.to_bits() }
}

/// The largest sum of per-channel absolute differences whose mean over the three colour
/// channels, computed in `f32` as the node's threshold is stated, stays at or below `t`.
fn quiet_limit_for(t: f32) -> Option<u16> {
    let mut limit = None;
    for s in 0u16..=765 {
        if (s as f32) / 3.0 <= t {
            limit = Some(s);
        }
    }
    limit
}

fn make(w: u32, h: u32, f: impl Fn(u32, u32) -> Pixel) -> Frame {
    let mut frame = Frame::black(w, h, ctx());
    for y in 0..h {
        for x in 0..w {
            frame.set_pixel(x, y, f(x, y));
        }
    }
    frame
}

fn frames_equal(a: &Frame, b: &Frame) -> bool {
    if (a.width(), a.height()) != (b.width(), b.height()) {
        return false;
    }
    for y in 0..a.height() {
        for x in 0..a.width() {
            if a.get_pixel(x, y) != b.get_pixel(x, y) {
                return false;
            }
        }
    }
    true
}

/// Paints every pixel of the frame with one colour.
struct Paint(Pixel);

impl Process for Paint {
    fn process(&mut self, mut f: Frame, _c: FrameCtx) -> Frame {
        for y in 0..f.height() {
            for x in 0..f.width() {
                f.set_pixel(x, y, self.0);
            }
        }
        f
    }
}

#[test]
fn identity_inner_passes_through() {
    let input = make(32, 24, |x, y| Pixel::rgb(x as u8, y as u8, (x ^ y) as u8));
    let mut node = LowResGlitch::new(LowResGlitchDescriptor::new().block(8), ());
    let out = node.process(input.clone(), ctx());
    assert!(frames_equal(&input, &out));
}

#[test]
fn flat_block_downsample() {
    let color = Pixel::rgb(40, 160, 200);
    let input = make(24, 16, |_, _| color);
    for mode in [DownsampleMode::Interpolate, DownsampleMode::Nearest, DownsampleMode::Random] {
        let low = downsample(&input, 8, mode, 0);
        assert_eq!((low.width(), low.height()), (3, 2));
        for y in 0..low.height() {
            for x in 0..low.width() {
                assert_eq!(low.get_pixel(x, y), color, "mode={mode:?} ({x},{y})");
            }
        }
    }
}

#[test]
fn replace_writes_changed_blocks() {
    let input = make(16, 16, |_, _| Pixel::rgb(0, 0, 0));
    let paint_white = Paint(Pixel::rgb(255, 255, 255));
    let desc = LowResGlitchDescriptor::new().block(8).quiet_limit(quiet_limit_for(1.0));
    let mut node = LowResGlitch::new(desc, paint_white);
    let out = node.process(input, ctx());
    for y in 0..16 {
        for x in 0..16 {
            assert_eq!(out.get_pixel(x, y), Pixel::rgb(255, 255, 255));
        }
    }
}

#[test]
fn add_overlays_delta() {
    let input = make(8, 8, |_, _| Pixel::rgb(100, 100, 100));
    let plus50 = Paint(Pixel::rgb(150, 150, 150));
    let desc = LowResGlitchDescriptor::new()
        .block(8)
        .overlay(OverlayMode::Add)
        .quiet_limit(quiet_limit_for(1.0));
    let mut node = LowResGlitch::new(desc, plus50);
    let out = node.process(input, ctx());
    assert_eq!(out.get_pixel(0, 0), Pixel::rgb(150, 150, 150));
}

#[test]
fn threshold_gates_small_change() {
    let input = make(8, 8, |_, _| Pixel::rgb(100, 100, 100));
    let plus3 = Paint(Pixel::rgb(103, 103, 103));
    let desc = LowResGlitchDescriptor::new().block(8).quiet_limit(quiet_limit_for(10.0));
    let mut node = LowResGlitch::new(desc, plus3);
    let out = node.process(input.clone(), ctx());
    assert!(frames_equal(&input, &out));
}

#[test]
fn output_size_preserved() {
    let input = make(37, 53, |x, y| Pixel::rgb(x as u8, y as u8, 0));
    let mut node = LowResGlitch::new(LowResGlitchDescriptor::new().block(8), ());
    let out = node.process(input, ctx());
    assert_eq!((out.width(), out.height()), (37, 53));
}

#[test]
fn default_limit_matches_default_threshold() {
    assert_eq!(LowResGlitchDescriptor::new().quiet_limit, quiet_limit_for(8.0));
    assert_eq!(LowResGlitchDescriptor::default(), LowResGlitchDescriptor::new());
    assert_eq!(quiet_limit_for(-1.0), None);
    assert_eq!(quiet_limit_for(f32::NAN), None);
}

#[test]
fn interpolate_averages_with_floor_and_cut_edge_blocks() {
    // 3x1 frame, blocks of 2: block 0 = {10, 21} -> 15, block 1 = {7} (cut at the edge).
    let input = make(3, 1, |x, _| match x {
        0 => Pixel::new(10, 0, 0, 255),
        1 => Pixel::new(21, 1, 0, 255),
        _ => Pixel::new(7, 9, 9, 9),
    });
    let low = downsample(&input, 2, DownsampleMode::Interpolate, 0);
    assert_eq!((low.width(), low.height()), (2, 1));
    assert_eq!(low.get_pixel(0, 0), Pixel::new(15, 0, 0, 255));
    assert_eq!(low.get_pixel(1, 0), Pixel::new(7, 9, 9, 9));
}

#[test]
fn nearest_takes_block_centre_clamped() {
    let input = make(5, 5, |x, y| Pixel::rgb(x as u8, y as u8, 0));
    let low = downsample(&input, 4, DownsampleMode::Nearest, 0);
    assert_eq!((low.width(), low.height()), (2, 2));
    assert_eq!(low.get_pixel(0, 0), Pixel::rgb(2, 2, 0));
    // the last block starts at 4; 4 + 2 is clamped to 4
    assert_eq!(low.get_pixel(1, 1), Pixel::rgb(4, 4, 0));
}

#[test]
fn random_samples_stay_in_their_block_and_follow_the_seed() {
    let input = make(12, 9, |x, y| Pixel::rgb(x as u8, y as u8, 0));
    let a = downsample(&input, 4, DownsampleMode::Random, 5);
    let b = downsample(&input, 4, DownsampleMode::Random, 5);
    for by in 0..a.height() {
        for bx in 0..a.width() {
            let p = a.get_pixel(bx, by);
            assert_eq!(p, b.get_pixel(bx, by));
            assert!((p.r as u32) / 4 == bx && (p.g as u32) / 4 == by);
        }
    }
}

#[test]
fn add_overlay_clamps() {
    let input = make(2, 2, |_, _| Pixel::new(250, 5, 100, 7));
    let desc = LowResGlitchDescriptor::new()
        .block(2)
        .overlay(OverlayMode::Add)
        .quiet_limit(Some(0));
    // the mosaic pixel is (250, 5, 100); painted to (255, 0, 120): change (+5, -5, +20)
    let mut node = LowResGlitch::new(desc, Paint(Pixel::rgb(255, 0, 120)));
    let out = node.process(input, ctx());
    assert_eq!(out.get_pixel(1, 1), Pixel::new(255, 0, 120, 7));
}

#[test]
fn no_limit_rewrites_every_block() {
    let input = make(4, 4, |_, _| Pixel::new(1, 2, 3, 9));
    let desc = LowResGlitchDescriptor::new().block(2).quiet_limit(None);
    let mut node = LowResGlitch::new(desc, ());
    let out = node.process(input, ctx());
    // replace keeps the full-resolution alpha and takes the (unchanged) mosaic colour
    assert_eq!(out.get_pixel(3, 3), Pixel::new(1, 2, 3, 9));
}

/// An inner node that returns a smaller frame than it was given.
struct Shrink;

impl Process for Shrink {
    fn process(&mut self, _f: Frame, c: FrameCtx) -> Frame {
        Frame::black(1, 1, c)
    }
}

#[test]
fn inner_node_shrinking_the_mosaic_leaves_frame_alone() {
    let input = make(16, 16, |x, _| Pixel::rgb(x as u8, 0, 0));
    let mut node = LowResGlitch::new(LowResGlitchDescriptor::new().block(4), Shrink);
    let out = node.process(input.clone(), ctx());
    assert!(frames_equal(&input, &out));
}

#[test]
fn very_large_blocks_are_still_averaged() {
    // one block of 4200 x 4100 pixels: more than u32 channel sums can hold when opaque
    let (w, h) = (4200u32, 4100u32);
    let n = (w * h) as usize;
    let mut data = vec![Pixel::new(250, 10, 0, 255); n];
    data[0] = Pixel::new(0, 10, 0, 255);
    let input = Frame::from_rgba(w, h, data, ctx());
    let low = downsample(&input, 5000, DownsampleMode::Interpolate, 0);
    assert_eq!((low.width(), low.height()), (1, 1));
    // (250 * (n - 1)) / n rounds down to 249
    assert_eq!(low.get_pixel(0, 0), Pixel::new(249, 10, 0, 255));

    let mut node = LowResGlitch::new(
        LowResGlitchDescriptor::new().block(5000).quiet_limit(None),
        (),
    );
    let out = node.process(input.clone(), ctx());
    // every pixel takes the block colour; the alpha stays
    assert_eq!(out.get_pixel(0, 0), Pixel::new(249, 10, 0, 255));
    assert_eq!(out.get_pixel(w - 1, h - 1), Pixel::new(249, 10, 0, 255));
}
