use video_sandbox::coords::{clamp_index, mirror_index, proportional_index};
use video_sandbox::frame::{Frame, FrameCtx};
use video_sandbox::mixer::{common_area, pixels_at, Mix, Mixer};
use video_sandbox::pixel::Pixel;
use video_sandbox::pixel_sort::sort_spans;
use video_sandbox::process::{lockstep_size_hint, Pipeline, Process};
use video_sandbox::settings::{DecodeSettings, EncodeSettings, VideoEncoder};
use video_sandbox::low_res_glitch::{DownsampleMode, OverlayMode};
use video_sandbox::noise::{CellDistance, CellFeature};
use video_sandbox::warp::{warp_geometry, IntermediatePrecision, WarpMode};

fn ctx(index: u64) -> FrameCtx {
    FrameCtx { index, pts: index as i64, seconds_bits: 0 }
}

#[test]
fn encoder_names_and_defaults() {
    assert_eq!(VideoEncoder::Software.codec_name(), "libx264");
    assert_eq!(VideoEncoder::Nvenc.codec_name(), "h264_nvenc");
    assert_eq!(VideoEncoder::Qsv.codec_name(), "h264_qsv");
    assert_eq!(VideoEncoder::Amf.codec_name(), "h264_amf");
    assert_eq!(VideoEncoder::default(), VideoEncoder::Software);
    let e = EncodeSettings::default();
    assert_eq!((e.fps, e.bit_rate, e.encoder), (30, 8_000_000, VideoEncoder::Software));
    assert_eq!(DecodeSettings::default().hwaccel, None);
}

#[test]
fn warp_mode_directions() {
    assert!(WarpMode::Roundtrip.uses_forward() && WarpMode::Roundtrip.uses_inverse());
    assert!(WarpMode::ForwardOnly.uses_forward() && !WarpMode::ForwardOnly.uses_inverse());
    assert!(!WarpMode::InverseOnly.uses_forward() && WarpMode::InverseOnly.uses_inverse());
    assert_eq!(WarpMode::default(), WarpMode::Roundtrip);
}

#[test]
fn enum_and_pixel_defaults() {
    assert_eq!(IntermediatePrecision::default(), IntermediatePrecision::F32);
    assert_eq!(DownsampleMode::default(), DownsampleMode::Interpolate);
    assert_eq!(OverlayMode::default(), OverlayMode::Replace);
    assert_eq!(CellDistance::default(), CellDistance::Euclidean);
    assert_eq!(CellFeature::default(), CellFeature::F1);
    assert_eq!(Pixel::default(), Pixel::new(0, 0, 0, 0));
}

#[test]
fn warp_canvas_geometry() {
    let g = warp_geometry(80, 60, 2, 3, 16).unwrap();
    assert_eq!((g.supersample, g.divisor), (2, 3));
    assert_eq!((g.field_width, g.field_height), (26, 20));
    assert_eq!((g.margin_cells, g.margin_px), (6, 18));
    assert_eq!((g.padded_width, g.padded_height), (116, 96));
    assert_eq!((g.canvas_width, g.canvas_height), (232, 192));
    let g = warp_geometry(1, 1, 0, 0, 0).unwrap();
    assert_eq!((g.supersample, g.divisor, g.field_width, g.canvas_width), (1, 1, 1, 1));
    assert!(warp_geometry(usize::MAX, 1, 2, 1, 0).is_none());
}

#[test]
fn sort_spans_follow_the_mask() {
    // masked runs close at the next unmasked pixel; the run open at the end is left alone
    let mask = vec![false, true, true, false, false, true, false, true, true];
    assert_eq!(sort_spans(&mask), vec![(0, 2), (4, 5)]);
    // a masked first pixel starts the run at 0
    assert_eq!(sort_spans(&vec![true, true, false]), vec![(0, 1)]);
    // single pixels are never sorted
    assert_eq!(sort_spans(&vec![false, false, true, false]), vec![(1, 2)]);
    assert_eq!(sort_spans(&vec![]), vec![]);
    assert_eq!(sort_spans(&vec![true; 5]), vec![]);
}

#[test]
fn lockstep_hint_takes_the_shorter_stream() {
    assert_eq!(lockstep_size_hint(Some(3), Some(5)), Some(3));
    assert_eq!(lockstep_size_hint(Some(3), None), Some(3));
    assert_eq!(lockstep_size_hint(None, Some(4)), Some(4));
    assert_eq!(lockstep_size_hint(None, None), None);
}

/// Emits `n` single-pixel frames of grey level `level`.
struct Frames {
    left: u64,
    level: u8,
}

impl Pipeline for Frames {
    fn next_frame(&mut self) -> Option<Frame> {
        if self.left == 0 {
            return None;
        }
        self.left -= 1;
        let mut f = Frame::black(1, 1, ctx(self.left));
        f.set_pixel(0, 0, Pixel::rgb(self.level, self.level, self.level));
        Some(f)
    }
}

/// Keeps the brighter red channel of the two frames.
struct Brighter;

impl Mixer for Brighter {
    fn mix(&mut self, frames: Vec<Frame>, _ctx: FrameCtx) -> Frame {
        let a = frames[0].get_pixel(0, 0);
        let b = frames[1].get_pixel(0, 0);
        let mut out = frames[0].clone();
        out.set_pixel(0, 0, if a.r >= b.r { a } else { b });
        out
    }
}

#[test]
fn mix_uses_second_source_until_it_runs_out() {
    let mut node = Mix::new(Frames { left: 1, level: 200 }, Brighter);
    let dark = Frames { left: 1, level: 10 }.next_frame().unwrap();
    let first = node.process(dark.clone(), ctx(0));
    assert_eq!(first.get_pixel(0, 0).r, 200);
    let second = node.process(dark, ctx(1));
    assert_eq!(second.get_pixel(0, 0).r, 10);
}

#[test]
fn piped_source_runs_every_frame_through_the_node() {
    let mut p = Frames { left: 2, level: 5 }.pipe(video_sandbox::invert::Invert);
    assert_eq!(p.next_frame().unwrap().get_pixel(0, 0), Pixel::rgb(250, 250, 250));
    assert!(p.next_frame().is_some());
    assert!(p.next_frame().is_none());
    assert_eq!(p.size_hint(), None);
}

#[test]
fn coordinate_mappings() {
    assert_eq!(proportional_index(5, 10, 4), 2);
    assert_eq!(proportional_index(9, 10, 4), 3);
    assert_eq!(proportional_index(3, 0, 4), 3);
    assert_eq!(proportional_index(u32::MAX, 1, u32::MAX), u32::MAX - 1);
    assert_eq!(clamp_index(-3, 5), 0);
    assert_eq!(clamp_index(7, 5), 4);
    assert_eq!(clamp_index(2, 5), 2);
    let mirrored: Vec<u32> = (-4i64..8).map(|i| mirror_index(i, 3)).collect();
    assert_eq!(mirrored, vec![2, 2, 1, 0, 0, 1, 2, 2, 1, 0, 0, 1]);
    assert_eq!(mirror_index(i64::MIN, 3), mirror_index(i64::MIN + 6, 3));
}

#[test]
fn common_area_and_pixel_columns() {
    assert_eq!(common_area(&Vec::new()), (0, 0));
    let a = Frame::from_rgba(3, 2, vec![Pixel::new(1, 2, 3, 4); 6], ctx(0));
    let mut b = Frame::from_rgba(2, 5, vec![Pixel::new(9, 9, 9, 9); 10], ctx(0));
    b.set_pixel(1, 1, Pixel::new(7, 7, 7, 7));
    let frames = vec![a, b];
    assert_eq!(common_area(&frames), (2, 2));
    assert_eq!(pixels_at(&frames, 1, 1), vec![Pixel::new(1, 2, 3, 4), Pixel::new(7, 7, 7, 7)]);
}
