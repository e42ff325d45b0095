//! RGBA8 pixels with straight (non-premultiplied) alpha and their integer operations.

use vstd::prelude::*;

use crate::rng::{xoshiro_draw, SeededRng};

verus! {

/// One RGBA8 pixel. Each channel is `0..=255`; the alpha is straight (the colour channels are
/// not premultiplied by it). The fields are laid out as `r, g, b, a`.
#[derive(Clone, Copy, PartialEq, Eq, Structural, Debug, Hash)]
pub struct Pixel {
    /// Red.
    pub r: u8,
    /// Green.
    pub g: u8,
    /// Blue.
    pub b: u8,
    /// Straight alpha; 255 is opaque.
    pub a: u8,
}

impl Default for Pixel {
    /// Every channel 0 (transparent black).
    fn default() -> (d: Pixel)
        ensures
            d == (Pixel { r: 0, g: 0, b: 0, a: 0 }),
    {
        Pixel { r: 0, g: 0, b: 0, a: 0 }
    }
}

/// Channel-wise normalised product: `x * y / 255`, rounded down.
pub open spec fn modulate_channel(x: u8, y: u8) -> int {
    (x as int * y as int) / 255
}

/// Saturating sum of two channels.
pub open spec fn sat_add_channel(x: u8, y: u8) -> int {
    if x as int + y as int > 255 { 255 } else { x as int + y as int }
}

/// Saturating difference of two channels.
pub open spec fn sat_sub_channel(x: u8, y: u8) -> int {
    if (x as int) - (y as int) < 0 { 0 } else { x as int - y as int }
}

proof fn lemma_modulate_channel_bounds(x: u8, y: u8)
    ensures
        0 <= modulate_channel(x, y) <= 255,
        modulate_channel(x, y) <= x,
        modulate_channel(x, y) <= y,
{
    assert(0 <= x as int * y as int <= 255 * 255) by (nonlinear_arith)
        requires 0 <= x <= 255, 0 <= y <= 255;
    assert(x as int * y as int <= 255 * x as int) by (nonlinear_arith)
        requires 0 <= x <= 255, 0 <= y <= 255;
    assert(x as int * y as int <= 255 * y as int) by (nonlinear_arith)
        requires 0 <= x <= 255, 0 <= y <= 255;
}

fn modulate_u8(x: u8, y: u8) -> (m: u8)
    ensures
        m == modulate_channel(x, y),
{
    proof {
        lemma_modulate_channel_bounds(x, y);
        assert(x as u16 * y as u16 == x as int * y as int) by (nonlinear_arith)
            requires 0 <= x <= 255, 0 <= y <= 255;
    }
    ((x as u16 * y as u16) / 255) as u8
}

impl Pixel {
    /// Builds a pixel from all four channels.
    pub fn new(r: u8, g: u8, b: u8, a: u8) -> (p: Pixel)
        ensures
            p == (Pixel { r, g, b, a }),
    {
        Pixel { r, g, b, a }
    }

    /// Builds an opaque pixel (`a = 255`).
    pub fn rgb(r: u8, g: u8, b: u8) -> (p: Pixel)
        ensures
            p == (Pixel { r, g, b, a: 255 }),
    {
        Pixel { r, g, b, a: 255 }
    }

    /// Opaque black.
    pub open spec fn black_spec() -> Pixel {
        Pixel { r: 0, g: 0, b: 0, a: 255 }
    }

    /// Opaque black.
    pub fn black() -> (p: Pixel)
        ensures
            p == Pixel::black_spec(),
    {
        Pixel { r: 0, g: 0, b: 0, a: 255 }
    }

    /// Opaque white.
    pub fn white() -> (p: Pixel)
        ensures
            p == (Pixel { r: 255, g: 255, b: 255, a: 255 }),
    {
        Pixel { r: 255, g: 255, b: 255, a: 255 }
    }

    /// Fully transparent (every channel 0).
    pub fn transparent() -> (p: Pixel)
        ensures
            p == (Pixel { r: 0, g: 0, b: 0, a: 0 }),
    {
        Pixel { r: 0, g: 0, b: 0, a: 0 }
    }

    /// Builds a pixel from `[r, g, b, a]`.
    pub fn from_array(a: [u8; 4]) -> (p: Pixel)
        ensures
            p == (Pixel { r: a[0], g: a[1], b: a[2], a: a[3] }),
    {
        Pixel { r: a[0], g: a[1], b: a[2], a: a[3] }
    }

    /// The channels as `[r, g, b, a]`.
    pub fn to_array(self) -> (arr: [u8; 4])
        ensures
            arr@ == seq![self.r, self.g, self.b, self.a],
    {
        let arr = [self.r, self.g, self.b, self.a];
        assert(arr@ =~= seq![self.r, self.g, self.b, self.a]);
        arr
    }

    /// Channel-wise saturating sum of the colour channels; the alpha of `self` is kept.
    pub fn saturating_add(self, o: Pixel) -> (p: Pixel)
        ensures
            p.r == sat_add_channel(self.r, o.r),
            p.g == sat_add_channel(self.g, o.g),
            p.b == sat_add_channel(self.b, o.b),
            p.a == self.a,
    {
        Pixel {
            r: self.r.saturating_add(o.r),
            g: self.g.saturating_add(o.g),
            b: self.b.saturating_add(o.b),
            a: self.a,
        }
    }

    /// Channel-wise saturating difference of the colour channels; the alpha of `self` is kept.
    pub fn saturating_sub(self, o: Pixel) -> (p: Pixel)
        ensures
            p.r == sat_sub_channel(self.r, o.r),
            p.g == sat_sub_channel(self.g, o.g),
            p.b == sat_sub_channel(self.b, o.b),
            p.a == self.a,
    {
        Pixel {
            r: self.r.saturating_sub(o.r),
            g: self.g.saturating_sub(o.g),
            b: self.b.saturating_sub(o.b),
            a: self.a,
        }
    }

    /// Channel-wise product of the two pixels normalised to `0..=255` (`x * y / 255`, rounded
    /// down), alpha included.
    pub fn modulate(self, o: Pixel) -> (p: Pixel)
        ensures
            p.r == modulate_channel(self.r, o.r),
            p.g == modulate_channel(self.g, o.g),
            p.b == modulate_channel(self.b, o.b),
            p.a == modulate_channel(self.a, o.a),
    {
        Pixel {
            r: modulate_u8(self.r, o.r),
            g: modulate_u8(self.g, o.g),
            b: modulate_u8(self.b, o.b),
            a: modulate_u8(self.a, o.a),
        }
    }

    /// Colour channels replaced by `255 - value`; the alpha is kept.
    pub fn invert(self) -> (p: Pixel)
        ensures
            p == self.inverted(),
    {
        Pixel { r: 255 - self.r, g: 255 - self.g, b: 255 - self.b, a: self.a }
    }

    /// An opaque pixel with uniformly random colour channels: the next three draws of `rng`,
    /// red first.
    pub fn random(rng: &mut SeededRng) -> (p: Pixel)
        ensures
            p == (Pixel {
                r: xoshiro_draw(old(rng).seed(), old(rng).drawn()) as u8,
                g: xoshiro_draw(old(rng).seed(), old(rng).drawn() + 1) as u8,
                b: xoshiro_draw(old(rng).seed(), old(rng).drawn() + 2) as u8,
                a: 255,
            }),
            final(rng).seed() == old(rng).seed(),
            final(rng).drawn() == old(rng).drawn() + 3,
    {
        let r = rng.next_u8();
        let g = rng.next_u8();
        let b = rng.next_u8();
        Pixel::rgb(r, g, b)
    }

    /// A pixel with all four channels uniformly random: the next four draws of `rng`, red first.
    pub fn random_rgba(rng: &mut SeededRng) -> (p: Pixel)
        ensures
            p == (Pixel {
                r: xoshiro_draw(old(rng).seed(), old(rng).drawn()) as u8,
                g: xoshiro_draw(old(rng).seed(), old(rng).drawn() + 1) as u8,
                b: xoshiro_draw(old(rng).seed(), old(rng).drawn() + 2) as u8,
                a: xoshiro_draw(old(rng).seed(), old(rng).drawn() + 3) as u8,
            }),
            final(rng).seed() == old(rng).seed(),
            final(rng).drawn() == old(rng).drawn() + 4,
    {
        let r = rng.next_u8();
        let g = rng.next_u8();
        let b = rng.next_u8();
        let a = rng.next_u8();
        Pixel::new(r, g, b, a)
    }

    /// The pixel with its colour channels inverted and its alpha kept.
    pub open spec fn inverted(self) -> Pixel {
        Pixel {
            r: (255 - self.r) as u8,
            g: (255 - self.g) as u8,
            b: (255 - self.b) as u8,
            a: self.a,
        }
    }
}

/// Inverting the colour channels twice gives the pixel back.
pub proof fn lemma_invert_involutive(p: Pixel)
    ensures
        p.inverted().inverted() == p,
{
}

/// Modulating with opaque white leaves a pixel unchanged.
pub proof fn lemma_modulate_white_identity(p: Pixel)
    ensures
        modulate_channel(p.r, 255) == p.r,
        modulate_channel(p.g, 255) == p.g,
        modulate_channel(p.b, 255) == p.b,
        modulate_channel(p.a, 255) == p.a,
{
}

/// Modulation is symmetric in its two pixels and never brightens a channel.
pub proof fn lemma_modulate_commutes_and_darkens(x: u8, y: u8)
    ensures
        modulate_channel(x, y) == modulate_channel(y, x),
        modulate_channel(x, y) <= x,
{
    lemma_modulate_channel_bounds(x, y);
    assert(x as int * y as int == y as int * x as int) by (nonlinear_arith);
}

/// The saturating sum of the colour channels is symmetric, and subtracting what was added
/// gives the channel back whenever the sum did not saturate.
pub proof fn lemma_saturating_add_sub(x: u8, y: u8)
    ensures
        sat_add_channel(x, y) == sat_add_channel(y, x),
        x as int + y as int <= 255 ==> sat_sub_channel(sat_add_channel(x, y) as u8, y) == x,
{
}

/// `to_array` after `from_array` gives the array back: its four entries are the channels in
/// `r, g, b, a` order.
pub proof fn lemma_array_roundtrip(a: [u8; 4])
    ensures
        seq![a[0], a[1], a[2], a[3]] == a@,
{
    assert(seq![a[0], a[1], a[2], a[3]] =~= a@);
}

impl From<[u8; 4]> for Pixel {
    fn from(a: [u8; 4]) -> (p: Pixel) {
        Pixel::from_array(a)
    }
}

impl vstd::std_specs::convert::FromSpecImpl<[u8; 4]> for Pixel {
    open spec fn obeys_from_spec() -> bool {
        true
    }

    open spec fn from_spec(a: [u8; 4]) -> Pixel {
        Pixel { r: a[0], g: a[1], b: a[2], a: a[3] }
    }
}

} // verus!
