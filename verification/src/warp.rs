//! Direction and precision settings of the invertible warp nodes, and the integer geometry of
//! their supersampled, padded canvas.

use vstd::prelude::*;

verus! {

/// Which warps to apply around the inner node: the forward warp (φ⁻¹) before it and the
/// inverse warp (φ) after it.
#[derive(Clone, Copy, Debug, PartialEq, Eq, Structural)]
pub enum WarpMode {
    /// Forward warp, inner node, inverse warp (the default): a reversible round trip.
    Roundtrip,
    /// Forward warp and inner node only: the output stays in the warped space.
    ForwardOnly,
    /// Inner node and inverse warp only.
    InverseOnly,
}

impl Default for WarpMode {
    /// The reversible round trip.
    fn default() -> (d: WarpMode)
        ensures
            d == WarpMode::Roundtrip,
    {
        WarpMode::Roundtrip
    }
}

impl WarpMode {
    /// Whether the forward warp (φ⁻¹) is applied.
    pub fn uses_forward(self) -> (b: bool)
        ensures
            b == (self == WarpMode::Roundtrip || self == WarpMode::ForwardOnly),
    {
        matches!(self, WarpMode::Roundtrip | WarpMode::ForwardOnly)
    }

    /// Whether the inverse warp (φ) is applied.
    pub fn uses_inverse(self) -> (b: bool)
        ensures
            b == (self == WarpMode::Roundtrip || self == WarpMode::InverseOnly),
    {
        matches!(self, WarpMode::Roundtrip | WarpMode::InverseOnly)
    }
}

/// Precision of the intermediate buffers.
#[derive(Clone, Copy, Debug, PartialEq, Eq, Structural)]
pub enum IntermediatePrecision {
    /// Round the intermediate buffers to 8 bits (to observe the loss).
    U8,
    /// Keep the intermediate buffers in 32-bit floating point (the default).
    F32,
}

impl Default for IntermediatePrecision {
    /// 32-bit floating point.
    fn default() -> (d: IntermediatePrecision)
        ensures
            d == IntermediatePrecision::F32,
    {
        IntermediatePrecision::F32
    }
}

/// Sizes of the canvas a warp node computes on, for a `width` × `height` source.
#[derive(Clone, Copy, Debug, PartialEq, Eq, Structural)]
pub struct WarpGeometry {
    /// Supersampling factor `k` (at least 1).
    pub supersample: usize,
    /// Field resolution divisor (at least 1): the velocity field has one cell per
    /// `divisor` × `divisor` source pixels.
    pub divisor: usize,
    /// Velocity field width, `max(width / divisor, 1)`.
    pub field_width: usize,
    /// Velocity field height, `max(height / divisor, 1)`.
    pub field_height: usize,
    /// Padding in field cells on every side, `ceil(padding / divisor)`.
    pub margin_cells: usize,
    /// Padding in source pixels on every side, `margin_cells * divisor`.
    pub margin_px: usize,
    /// Padded source width, `width + 2 * margin_px`.
    pub padded_width: usize,
    /// Padded source height, `height + 2 * margin_px`.
    pub padded_height: usize,
    /// Supersampled canvas width, `padded_width * supersample`.
    pub canvas_width: usize,
    /// Supersampled canvas height, `padded_height * supersample`.
    pub canvas_height: usize,
}

/// The geometry of [`warp_geometry`] over unbounded integers.
pub open spec fn geometry_of(width: int, height: int, supersample: int, field_divisor: int, padding: int) -> (
    int,
    int,
    int,
    int,
    int,
    int,
    int,
    int,
    int,
    int,
) {
    let k = if supersample == 0 { 1 } else { supersample };
    let d = if field_divisor == 0 { 1 } else { field_divisor };
    let fw = if width / d == 0 { 1 } else { width / d };
    let fh = if height / d == 0 { 1 } else { height / d };
    let mf = padding / d + if padding % d == 0 { 0int } else { 1int };
    let mpx = mf * d;
    let wp = width + 2 * mpx;
    let hp = height + 2 * mpx;
    (k, d, fw, fh, mf, mpx, wp, hp, wp * k, hp * k)
}

/// The canvas geometry of a warp node for a `width` × `height` source: supersampling
/// `max(supersample, 1)`, field divisor `max(field_divisor, 1)`, and `padding` source pixels of
/// padding on every side, rounded up to whole field cells. `None` exactly when a size does not
/// fit in `usize`.
pub fn warp_geometry(width: usize, height: usize, supersample: u32, field_divisor: u32, padding: u32) -> (g: Option<WarpGeometry>)
    ensures
        ({
            let (k, d, fw, fh, mf, mpx, wp, hp, wk, hk) = geometry_of(
                width as int,
                height as int,
                supersample as int,
                field_divisor as int,
                padding as int,
            );
            match g {
                Some(g) => {
                    &&& g.supersample == k
                    &&& g.divisor == d
                    &&& g.field_width == fw
                    &&& g.field_height == fh
                    &&& g.margin_cells == mf
                    &&& g.margin_px == mpx
                    &&& g.padded_width == wp
                    &&& g.padded_height == hp
                    &&& g.canvas_width == wk
                    &&& g.canvas_height == hk
                },
                None => wk > usize::MAX || hk > usize::MAX,
            }
        }),
{
    let k: usize = if supersample == 0 { 1 } else { supersample as usize };
    let d: usize = if field_divisor == 0 { 1 } else { field_divisor as usize };
    let fw = if width / d == 0 { 1 } else { width / d };
    let fh = if height / d == 0 { 1 } else { height / d };
    let p = padding as u64;
    let d64 = d as u64;
    let mf: u64 = p / d64 + if p % d64 == 0 { 0 } else { 1 };
    proof {
        vstd::arithmetic::div_mod::lemma_fundamental_div_mod(p as int, d as int);
        assert(mf * d64 <= p + d64) by (nonlinear_arith)
            requires
                mf == p / d64 + (if p % d64 == 0 { 0int } else { 1int }),
                p == d64 * (p / d64) + p % d64,
                0 <= p % d64 < d64,
                d64 >= 1;
        assert(mf <= mf * d64) by (nonlinear_arith)
            requires d64 >= 1, mf >= 0;
    }
    let mpx: u64 = mf * d64;
    let wp_wide: u128 = width as u128 + 2 * (mpx as u128);
    let hp_wide: u128 = height as u128 + 2 * (mpx as u128);
    proof {
        assert(wp_wide * (k as u128) <= 0x1_0000_0000_0000_0002_0000_0000u128 * 0xffff_ffffu128) by (nonlinear_arith)
            requires wp_wide <= 0x1_0000_0000_0000_0002_0000_0000u128, k <= 0xffff_ffff;
        assert(hp_wide * (k as u128) <= 0x1_0000_0000_0000_0002_0000_0000u128 * 0xffff_ffffu128) by (nonlinear_arith)
            requires hp_wide <= 0x1_0000_0000_0000_0002_0000_0000u128, k <= 0xffff_ffff;
        assert(wp_wide <= wp_wide * (k as u128)) by (nonlinear_arith)
            requires k >= 1;
        assert(hp_wide <= hp_wide * (k as u128)) by (nonlinear_arith)
            requires k >= 1;
    }
    let wk_wide = wp_wide * (k as u128);
    let hk_wide = hp_wide * (k as u128);
    if wk_wide > usize::MAX as u128 || hk_wide > usize::MAX as u128 {
        return None;
    }
    let wp = wp_wide as usize;
    let hp = hp_wide as usize;
    Some(WarpGeometry {
        supersample: k,
        divisor: d,
        field_width: fw,
        field_height: fh,
        margin_cells: mf as usize,
        margin_px: mpx as usize,
        padded_width: wp,
        padded_height: hp,
        canvas_width: wk_wide as usize,
        canvas_height: hk_wide as usize,
    })
}

} // verus!
