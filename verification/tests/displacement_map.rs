use video_sandbox::pixel::Pixel;

/// The displacement normalisation maps the middle value 128 to (almost) no displacement.
#[test]
fn neutral_gray_is_zero_displacement() {
    let center = 128u8;
    let d = center as f32 / 127.5 - 1.0;
    assert!(d.abs() < 0.01, "displacement at the middle value is not near 0: {d}");
    // the middle grey of the library's pixels carries that value in its red and green channels
    let p = Pixel::rgb(center, center, center);
    assert_eq!((p.r, p.g), (128, 128));
}
