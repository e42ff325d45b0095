use video_sandbox::frame::{Frame, FrameCtx};
use video_sandbox::invert::Invert;
use video_sandbox::pixel::Pixel;
use video_sandbox::process::Process;
use video_sandbox::strided::{frame_from_strided_rgba, pick_format, strided_rgba};

fn ctx0() -> FrameCtx {
    FrameCtx { index: 0, pts: 0, seconds_bits: 0.0f32.to_bits() }
}

/// The tiled transpose satisfies `T[a][b] == F[b][a]` on a non-square size.
#[test]
fn transposed_matches_definition() {
    let (w, h) = (37u32, 53u32);
    let ctx = FrameCtx { index: 0, pts: 7, seconds_bits: 0.7f32.to_bits() };
    let mut f = Frame::black(w, h, ctx);
    for y in 0..h {
        for x in 0..w {
            f.set_pixel(x, y, Pixel::new(x as u8, y as u8, (x ^ y) as u8, 255));
        }
    }
    let t = f.transposed();
    assert_eq!(t.width(), h);
    assert_eq!(t.height(), w);
    assert_eq!(t.ctx().pts, f.ctx().pts);
    for y in 0..h {
        for x in 0..w {
            assert_eq!(t.get_pixel(y, x), f.get_pixel(x, y), "({x}, {y})");
        }
    }
}

#[test]
fn transposing_twice_gives_the_frame_back() {
    let mut f = Frame::black(5, 3, ctx0());
    for y in 0..3 {
        for x in 0..5 {
            f.set_pixel(x, y, Pixel::rgb((x * 10) as u8, (y * 10) as u8, 1));
        }
    }
    let u = f.transposed().transposed();
    assert_eq!((u.width(), u.height()), (5, 3));
    assert_eq!(u.data(), f.data());
}

#[test]
fn black_frame_and_pixel_access() {
    let mut f = Frame::black(4, 2, ctx0());
    assert_eq!(f.data().len(), 4 * 2 * 4);
    assert_eq!(f.get_pixel(3, 1), Pixel::black());
    f.set_pixel(3, 1, Pixel::rgb(1, 2, 3));
    assert_eq!(f.get_pixel(3, 1), Pixel::rgb(1, 2, 3));
    assert_eq!(f.get_pixel(2, 1), Pixel::black());
    assert_eq!(&f.data()[28..32], &[1, 2, 3, 255]);
}

#[test]
fn bytes_roundtrip() {
    let bytes: Vec<u8> = (0..24).map(|i| i as u8).collect();
    let f = Frame::from_rgba_bytes(3, 2, &bytes, ctx0());
    assert_eq!(f.get_pixel(1, 1), Pixel::new(16, 17, 18, 19));
    assert_eq!(f.data(), bytes);
}

#[test]
fn context_updates() {
    let mut f = Frame::black(1, 1, ctx0());
    f.set_ctx(FrameCtx { index: 4, pts: 9, seconds_bits: 1.5f32.to_bits() });
    assert_eq!(f.ctx().index, 4);
    f.set_index(11);
    assert_eq!(f.ctx().index, 11);
    assert_eq!(f.ctx().pts, 9);
    assert_eq!(f32::from_bits(f.ctx().seconds_bits), 1.5);
}

#[test]
fn rows_read_and_write() {
    let mut f = Frame::black(3, 2, ctx0());
    let row = vec![Pixel::rgb(1, 1, 1), Pixel::rgb(2, 2, 2), Pixel::rgb(3, 3, 3)];
    f.set_row(1, &row);
    assert_eq!(f.row(1), row);
    assert_eq!(f.row(0), vec![Pixel::black(); 3]);
}

#[test]
fn clone_copies_everything() {
    let mut f = Frame::black(2, 2, ctx0());
    f.set_pixel(1, 0, Pixel::rgb(9, 9, 9));
    let g = f.clone();
    assert_eq!(g.data(), f.data());
    assert_eq!((g.width(), g.height()), (2, 2));
}

#[test]
fn invert_node_inverts_rgb_only_and_twice_is_identity() {
    let mut f = Frame::black(2, 1, ctx0());
    f.set_pixel(1, 0, Pixel::new(10, 20, 30, 40));
    let mut node = Invert;
    let g = node.process(f.clone(), ctx0());
    assert_eq!(g.get_pixel(0, 0), Pixel::white());
    assert_eq!(g.get_pixel(1, 0), Pixel::new(245, 235, 225, 40));
    let h = node.process(g, ctx0());
    assert_eq!(h.data(), f.data());
}

#[test]
fn unit_node_passes_through() {
    let mut f = Frame::black(2, 2, ctx0());
    f.set_pixel(0, 1, Pixel::rgb(7, 8, 9));
    let out = ().process(f.clone(), ctx0());
    assert_eq!(out.data(), f.data());
}

#[test]
fn strided_plane_roundtrip() {
    let mut f = Frame::black(2, 2, ctx0());
    f.set_pixel(0, 0, Pixel::new(1, 2, 3, 4));
    f.set_pixel(1, 1, Pixel::new(5, 6, 7, 8));
    let plane = strided_rgba(&f, 12);
    assert_eq!(plane.len(), 24);
    assert_eq!(&plane[0..4], &[1, 2, 3, 4]);
    assert_eq!(&plane[8..12], &[0, 0, 0, 0]);
    assert_eq!(&plane[16..20], &[5, 6, 7, 8]);
    let back = frame_from_strided_rgba(&plane, 12, 2, 2, ctx0());
    assert_eq!(back.data(), f.data());
}

#[test]
fn decoder_format_choice() {
    let preferred = vec![174, 53];
    assert_eq!(pick_format(&vec![0, 53, 174], &preferred, -1), 53);
    assert_eq!(pick_format(&vec![0, 23], &preferred, -1), 0);
    assert_eq!(pick_format(&vec![], &preferred, -1), -1);
}
