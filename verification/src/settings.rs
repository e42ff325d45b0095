//! Encoder and decoder settings of the video input and output.

use vstd::prelude::*;

verus! {

/// The H.264 encoder to use.
#[derive(Clone, Copy, Debug, PartialEq, Eq, Structural)]
pub enum VideoEncoder {
    /// libx264 (software); the default.
    Software,
    /// NVIDIA NVENC (`h264_nvenc`).
    Nvenc,
    /// Intel Quick Sync (`h264_qsv`).
    Qsv,
    /// AMD AMF (`h264_amf`).
    Amf,
}

impl Default for VideoEncoder {
    /// libx264 (software).
    fn default() -> (d: VideoEncoder)
        ensures
            d == VideoEncoder::Software,
    {
        VideoEncoder::Software
    }
}

impl VideoEncoder {
    /// The FFmpeg name of the encoder.
    pub fn codec_name(self) -> (name: &'static str)
        ensures
            name@ == match self {
                VideoEncoder::Software => "libx264"@,
                VideoEncoder::Nvenc => "h264_nvenc"@,
                VideoEncoder::Qsv => "h264_qsv"@,
                VideoEncoder::Amf => "h264_amf"@,
            },
    {
        match self {
            VideoEncoder::Software => "libx264",
            VideoEncoder::Nvenc => "h264_nvenc",
            VideoEncoder::Qsv => "h264_qsv",
            VideoEncoder::Amf => "h264_amf",
        }
    }
}

/// Kind of hardware decoding.
#[derive(Clone, Copy, Debug, PartialEq, Eq, Structural)]
pub enum HwAccel {
    /// Direct3D 11 VA (Windows, any vendor).
    D3d11va,
    /// DirectX VA 2 (Windows, older).
    Dxva2,
    /// NVIDIA CUDA.
    Cuda,
    /// Intel Quick Sync.
    Qsv,
    /// VA-API (Linux, Intel/AMD).
    Vaapi,
}

/// Encoder settings.
#[derive(Clone, Copy, Debug, PartialEq, Eq, Structural)]
pub struct EncodeSettings {
    /// Output frame rate (frames per second).
    pub fps: i32,
    /// Target bit rate (bit/s).
    pub bit_rate: i64,
    /// Encoder to use; libx264 by default.
    pub encoder: VideoEncoder,
}

impl Default for EncodeSettings {
    /// 30 fps, 8 Mbit/s, libx264.
    fn default() -> (s: EncodeSettings)
        ensures
            s == (EncodeSettings { fps: 30, bit_rate: 8_000_000, encoder: VideoEncoder::Software }),
    {
        EncodeSettings { fps: 30, bit_rate: 8_000_000, encoder: VideoEncoder::Software }
    }
}

/// Decoder settings.
#[derive(Clone, Copy, Debug, PartialEq, Eq, Structural)]
pub struct DecodeSettings {
    /// Kind of hardware decoding; `None` decodes in software.
    pub hwaccel: Option<HwAccel>,
}

impl Default for DecodeSettings {
    /// Software decoding.
    fn default() -> (s: DecodeSettings)
        ensures
            s == (DecodeSettings { hwaccel: None }),
    {
        DecodeSettings { hwaccel: None }
    }
}

} // verus!
