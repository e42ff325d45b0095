//! Frames made from encoded images: the bytes of a PNG, JPEG, BMP or GIF file decoded into one
//! RGBA8 frame with the context of a first frame.

use image::{ImageError, ImageFormat};
use vstd::prelude::*;

use crate::frame::{pixels_of_bytes, Frame, FrameCtx};

verus! {

/// The error type of the `image` crate, carried through as an opaque value.
#[verifier::external_type_specification]
#[verifier::external_body]
pub struct ExImageError(ImageError);

/// Container format of an encoded image.
#[derive(Clone, Copy, Debug, PartialEq, Eq, Structural)]
pub enum ImageKind {
    Png,
    Jpeg,
    Bmp,
    Gif,
}

/// Why an image could not be turned into a frame.
#[derive(Clone, Copy, Debug, PartialEq, Eq, Structural)]
pub enum ImageLoadError {
    /// The bytes are not a decodable image of the given kind.
    Decode,
    /// The decoder returned a pixel buffer longer than `width * height * 4` bytes.
    BufferLength,
}

/// What `image::load_from_memory_with_format` followed by `to_rgba8` makes of `bytes` read as
/// `kind`: `None` when decoding fails, else the width, the height and the RGBA8 bytes of the
/// image (the first frame of a GIF), rows top to bottom. Decoding depends on the bytes and the
/// format alone.
pub uninterp spec fn decoded_rgba8(bytes: Seq<u8>, kind: ImageKind) -> Option<(u32, u32, Seq<u8>)>;

/// Trusted: `image::load_from_memory_with_format` (image), with the decoded image converted by
/// `DynamicImage::to_rgba8` and `ImageBuffer::into_raw`. Claims that the result is
/// [`decoded_rgba8`] of the arguments, and that the buffer holds at least `width * height * 4`
/// bytes, which `ImageBuffer` keeps as its invariant. What the decoding error says is not stated.
#[verifier::external_body]
fn decode_rgba8(bytes: &[u8], kind: ImageKind) -> (r: Result<(u32, u32, Vec<u8>), ImageError>)
    ensures
        match r {
            Ok((w, h, px)) => {
                &&& decoded_rgba8(bytes@, kind) == Some((w, h, px@))
                &&& px.len() >= w as int * h as int * 4
            },
            Err(_) => decoded_rgba8(bytes@, kind) is None,
        },
{
    let format = match kind {
        ImageKind::Png => ImageFormat::Png,
        ImageKind::Jpeg => ImageFormat::Jpeg,
        ImageKind::Bmp => ImageFormat::Bmp,
        ImageKind::Gif => ImageFormat::Gif,
    };
    let rgba = image::load_from_memory_with_format(bytes, format)?.to_rgba8();
    Ok((rgba.width(), rgba.height(), rgba.into_raw()))
}

/// The context of a frame loaded from an image: index 0, pts 0, 0 seconds.
pub open spec fn first_frame_ctx() -> FrameCtx {
    FrameCtx { index: 0, pts: 0, seconds_bits: 0 }
}

/// The frame of an encoded image of kind `kind`, with the context of a first frame (index 0,
/// pts 0, 0 seconds). Fails with [`ImageLoadError::Decode`] exactly when the bytes do not
/// decode, and with [`ImageLoadError::BufferLength`] exactly when the decoder hands back more
/// than `width * height * 4` bytes.
pub fn frame_from_image_bytes(bytes: &[u8], kind: ImageKind) -> (f: Result<Frame, ImageLoadError>)
    ensures
        match decoded_rgba8(bytes@, kind) {
            None => f == Err::<Frame, ImageLoadError>(ImageLoadError::Decode),
            Some((w, h, px)) => if px.len() == w as int * h as int * 4 {
                &&& f is Ok
                &&& f->Ok_0.spec_width() == w
                &&& f->Ok_0.spec_height() == h
                &&& f->Ok_0.pixels() == pixels_of_bytes(px)
                &&& f->Ok_0.spec_ctx() == first_frame_ctx()
            } else {
                f == Err::<Frame, ImageLoadError>(ImageLoadError::BufferLength)
            },
        },
{
    match decode_rgba8(bytes, kind) {
        Err(_) => Err(ImageLoadError::Decode),
        Ok((w, h, px)) => {
            proof {
                assert(w as int * h as int <= w as int * h as int * 4) by (nonlinear_arith)
                    requires w >= 0, h >= 0;
            }
            let count = w as usize * h as usize;
            if px.len() != count * 4 {
                return Err(ImageLoadError::BufferLength);
            }
            let ctx = FrameCtx { index: 0, pts: 0, seconds_bits: 0 };
            Ok(Frame::from_rgba_bytes(w, h, px.as_slice(), ctx))
        },
    }
}

} // verus!
