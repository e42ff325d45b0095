use video_sandbox::pixel::Pixel;
use video_sandbox::SeededRng;

#[test]
fn constructors_and_arrays() {
    assert_eq!(Pixel::new(1, 2, 3, 4), Pixel { r: 1, g: 2, b: 3, a: 4 });
    assert_eq!(Pixel::rgb(1, 2, 3), Pixel { r: 1, g: 2, b: 3, a: 255 });
    assert_eq!(Pixel::black(), Pixel::rgb(0, 0, 0));
    assert_eq!(Pixel::white(), Pixel::rgb(255, 255, 255));
    assert_eq!(Pixel::transparent(), Pixel::new(0, 0, 0, 0));
    assert_eq!(Pixel::from_array([9, 8, 7, 6]), Pixel::new(9, 8, 7, 6));
    assert_eq!(Pixel::new(9, 8, 7, 6).to_array(), [9, 8, 7, 6]);
    assert_eq!(Pixel::from([5, 6, 7, 8]), Pixel::new(5, 6, 7, 8));
    let p = Pixel::new(12, 34, 56, 78);
    assert_eq!(Pixel::from_array(p.to_array()), p);
}

#[test]
fn saturating_arithmetic_keeps_alpha_of_self() {
    let a = Pixel::new(200, 10, 128, 40);
    let b = Pixel::new(100, 20, 127, 250);
    assert_eq!(a.saturating_add(b), Pixel::new(255, 30, 255, 40));
    assert_eq!(a.saturating_sub(b), Pixel::new(100, 0, 1, 40));
    assert_eq!(b.saturating_sub(a), Pixel::new(0, 10, 0, 250));
}

#[test]
fn modulate_is_normalised_product() {
    let a = Pixel::new(255, 128, 10, 200);
    let b = Pixel::new(255, 128, 255, 100);
    // 128 * 128 / 255 = 64.25 -> 64; 200 * 100 / 255 = 78.4 -> 78
    assert_eq!(a.modulate(b), Pixel::new(255, 64, 10, 78));
    assert_eq!(a.modulate(Pixel::new(255, 255, 255, 255)), a);
    assert_eq!(a.modulate(b), b.modulate(a));
}

#[test]
fn invert_keeps_alpha_and_is_involutive() {
    let p = Pixel::new(0, 100, 255, 17);
    assert_eq!(p.invert(), Pixel::new(255, 155, 0, 17));
    assert_eq!(p.invert().invert(), p);
}

#[test]
fn random_pixels_follow_the_seed() {
    let mut a = SeededRng::new(3);
    let mut b = SeededRng::new(3);
    let pa = Pixel::random(&mut a);
    let pb = Pixel::random(&mut b);
    assert_eq!(pa, pb);
    assert_eq!(pa.a, 255);
    let qa = Pixel::random_rgba(&mut a);
    let qb = Pixel::random_rgba(&mut b);
    assert_eq!(qa, qb);
    let mut c = SeededRng::new(3);
    let r = c.next_u32();
    assert_eq!(pa.r, r as u8);
}
