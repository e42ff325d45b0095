//! Frame-level pixel processing for an experimental video pipeline: RGBA8 pixels and frames,
//! the frame-stream and node traits, integer image nodes (inversion, low-resolution glitch
//! overlay, pixel-sort span selection, two-input mixing), the seeded permutation table behind
//! the procedural noise sources, strided picture-buffer layout, and the parameter types of the
//! encoder, decoder and warp nodes.

pub mod coords;
pub mod frame;
pub mod framegen;
pub mod invert;
pub mod low_res_glitch;
pub mod mixer;
pub mod noise;
pub mod pixel;
pub mod pixel_sort;
pub mod process;
pub mod rng;
pub mod settings;
pub mod strided;
pub mod warp;

pub use frame::{Frame, FrameCtx};
pub use framegen::{frame_from_image_bytes, ImageKind, ImageLoadError};
pub use invert::Invert;
pub use low_res_glitch::{DownsampleMode, LowResGlitch, LowResGlitchDescriptor, OverlayMode};
pub use mixer::{Mix, Mixer};
pub use noise::{CellDistance, CellFeature, Cellular, NoiseKind, Perm, TimeMode};
pub use pixel::Pixel;
pub use process::{Pipeline, Piped, Process};
pub use rng::SeededRng;
pub use settings::{DecodeSettings, EncodeSettings, HwAccel, VideoEncoder};
pub use warp::{IntermediatePrecision, WarpGeometry, WarpMode};
