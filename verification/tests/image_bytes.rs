use std::io::Cursor;

use image::{ImageFormat, RgbaImage};
use video_sandbox::frame::FrameCtx;
use video_sandbox::pixel::Pixel;
use video_sandbox::{frame_from_image_bytes, ImageKind, ImageLoadError};

fn encoded(format: ImageFormat) -> Vec<u8> {
    let raw = vec![255, 0, 0, 255, 0, 255, 0, 255, 0, 0, 255, 255, 10, 20, 30, 255];
    let img = RgbaImage::from_raw(2, 2, raw).unwrap();
    let mut out = Cursor::new(Vec::new());
    img.write_to(&mut out, format).unwrap();
    out.into_inner()
}

#[test]
fn png_bytes_decode_to_a_first_frame() {
    let f = frame_from_image_bytes(&encoded(ImageFormat::Png), ImageKind::Png).unwrap();
    assert_eq!((f.width(), f.height()), (2, 2));
    assert_eq!(f.get_pixel(0, 0), Pixel::new(255, 0, 0, 255));
    assert_eq!(f.get_pixel(1, 0), Pixel::new(0, 255, 0, 255));
    assert_eq!(f.get_pixel(0, 1), Pixel::new(0, 0, 255, 255));
    assert_eq!(f.get_pixel(1, 1), Pixel::new(10, 20, 30, 255));
    assert_eq!(f.ctx(), FrameCtx { index: 0, pts: 0, seconds_bits: 0 });
}

#[test]
fn bmp_bytes_decode_too() {
    let f = frame_from_image_bytes(&encoded(ImageFormat::Bmp), ImageKind::Bmp).unwrap();
    assert_eq!(f.get_pixel(1, 1), Pixel::new(10, 20, 30, 255));
}

#[test]
fn undecodable_bytes_are_a_decode_error() {
    assert_eq!(frame_from_image_bytes(&[1, 2, 3, 4], ImageKind::Png).err(), Some(ImageLoadError::Decode));
    // PNG bytes read as a JPEG do not decode either
    assert_eq!(
        frame_from_image_bytes(&encoded(ImageFormat::Png), ImageKind::Jpeg).err(),
        Some(ImageLoadError::Decode)
    );
}
