//! Two-input mixing: a node that pulls a second stream and merges each pair of frames.

use vstd::prelude::*;

use crate::frame::{Frame, FrameCtx};
use crate::pixel::Pixel;
use crate::process::{Pipeline, Process};

verus! {

/// Merges several frames into one. [`Mix`] calls it with two frames.
pub trait Mixer {
    /// `out` is a frame that `mix` may return for `frames` and `ctx` when the mixer is in the
    /// state `self`. A mixer that does not say more promises nothing about its output.
    open spec fn mixes(&self, frames: Seq<Frame>, ctx: FrameCtx, out: Frame) -> bool {
        true
    }

    /// Merges `frames` into one frame; `ctx` is the context of the first source's frame.
    fn mix(&mut self, frames: Vec<Frame>, ctx: FrameCtx) -> (out: Frame)
        ensures
            old(self).mixes(frames@, ctx, out),
    ;
}

/// Node that pulls one frame of the second source `p` for every frame it processes and hands
/// both, in that order, to the mixer. Once `p` runs out, frames pass through unchanged.
pub struct Mix<P: Pipeline, M: Mixer> {
    p: P,
    mixer: M,
}

impl<P: Pipeline, M: Mixer> Mix<P, M> {
    /// The second source.
    pub closed spec fn source(&self) -> P {
        self.p
    }

    /// The mixer.
    pub closed spec fn mixer(&self) -> M {
        self.mixer
    }

    /// A mix node over the second source `p` and the mixer `mixer`.
    pub fn new(p: P, mixer: M) -> (m: Self)
        ensures
            m.source() == p,
            m.mixer() == mixer,
    {
        Mix { p, mixer }
    }
}

impl<P: Pipeline, M: Mixer> Process for Mix<P, M> {
    /// `frame` itself when the second source may have run out; otherwise what the mixer may make
    /// of `[frame, b]` under `ctx`, for a frame `b` that the second source may yield.
    open spec fn processes(&self, frame: Frame, ctx: FrameCtx, out: Frame) -> bool {
        ||| self.source().yields(None) && out == frame
        ||| exists|b: Frame|
            #![trigger self.source().yields(Some(b))]
            self.source().yields(Some(b)) && self.mixer().mixes(seq![frame, b], ctx, out)
    }

    fn process(&mut self, frame: Frame, ctx: FrameCtx) -> (out: Frame) {
        match self.p.next_frame() {
            Some(b) => {
                let ghost (f0, b0) = (frame, b);
                let frames = vec![frame, b];
                assert(frames@ == seq![f0, b0]);
                let out = self.mixer.mix(frames, ctx);
                assert(old(self).source().yields(Some(b0)));
                out
            },
            None => frame,
        }
    }
}

/// The area that every frame of `frames` covers: the smallest width and the smallest height,
/// `(0, 0)` for no frames.
pub fn common_area(frames: &Vec<Frame>) -> (wh: (u32, u32))
    ensures
        frames.len() == 0 ==> wh == (0u32, 0u32),
        frames.len() > 0 ==> {
            &&& forall|i: int| 0 <= i < frames.len() ==> wh.0 <= #[trigger] frames@[i].spec_width()
            &&& exists|i: int| 0 <= i < frames.len() && wh.0 == #[trigger] frames@[i].spec_width()
            &&& forall|i: int| 0 <= i < frames.len() ==> wh.1 <= #[trigger] frames@[i].spec_height()
            &&& exists|i: int| 0 <= i < frames.len() && wh.1 == #[trigger] frames@[i].spec_height()
        },
{
    if frames.len() == 0 {
        return (0, 0);
    }
    let mut w = frames[0].width();
    let mut h = frames[0].height();
    let mut i: usize = 1;
    while i < frames.len()
        invariant
            1 <= i <= frames.len(),
            forall|j: int| 0 <= j < i ==> w <= #[trigger] frames@[j].spec_width(),
            exists|j: int| 0 <= j < i && w == #[trigger] frames@[j].spec_width(),
            forall|j: int| 0 <= j < i ==> h <= #[trigger] frames@[j].spec_height(),
            exists|j: int| 0 <= j < i && h == #[trigger] frames@[j].spec_height(),
        decreases frames.len() - i,
    {
        let fw = frames[i].width();
        let fh = frames[i].height();
        if fw < w {
            w = fw;
        }
        if fh < h {
            h = fh;
        }
        i += 1;
    }
    (w, h)
}

/// Pixel `(x, y)` of every frame, in the order of `frames`.
pub fn pixels_at(frames: &Vec<Frame>, x: u32, y: u32) -> (pxs: Vec<Pixel>)
    requires
        forall|i: int| 0 <= i < frames.len() ==> #[trigger] frames@[i].contains(x as int, y as int),
    ensures
        pxs.len() == frames.len(),
        forall|i: int| 0 <= i < frames.len() ==> pxs@[i] == #[trigger] frames@[i].at(x as int, y as int),
{
    let mut pxs: Vec<Pixel> = Vec::new();
    let mut i: usize = 0;
    while i < frames.len()
        invariant
            i <= frames.len(),
            pxs.len() == i,
            forall|j: int| 0 <= j < frames.len() ==> #[trigger] frames@[j].contains(x as int, y as int),
            forall|j: int| 0 <= j < i ==> pxs@[j] == #[trigger] frames@[j].at(x as int, y as int),
        decreases frames.len() - i,
    {
        assert(frames@[i as int].contains(x as int, y as int));
        pxs.push(frames[i].get_pixel(x, y));
        i += 1;
    }
    pxs
}

} // verus!
