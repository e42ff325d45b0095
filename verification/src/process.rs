//! The two traits of the pipeline: frame sources ([`Pipeline`]) and one-frame-in, one-frame-out
//! nodes ([`Process`]), with the adapter that chains a node behind a source.

use vstd::prelude::*;

use crate::frame::{Frame, FrameCtx};

verus! {

/// A node that takes one frame and returns one frame. A node with state keeps it in its own
/// fields (`&mut self`).
pub trait Process {
    /// `out` is a frame that `process` may return for `frame` and `ctx` when the node is in the
    /// state `self`. A node that does not say more promises nothing about its output.
    open spec fn processes(&self, frame: Frame, ctx: FrameCtx, out: Frame) -> bool {
        true
    }

    /// Transforms `frame`; `ctx` is the frame's number and timestamp.
    fn process(&mut self, frame: Frame, ctx: FrameCtx) -> (out: Frame)
        ensures
            old(self).processes(frame, ctx, out),
    ;
}

/// The unit node passes every frame through unchanged.
impl Process for () {
    open spec fn processes(&self, frame: Frame, ctx: FrameCtx, out: Frame) -> bool {
        out == frame
    }

    fn process(&mut self, frame: Frame, ctx: FrameCtx) -> (out: Frame)
        ensures
            out == frame,
    {
        frame
    }
}

/// A pull stream of frames, shaped like `Iterator`: adapters own their upstream source.
pub trait Pipeline {
    /// `out` is what `next_frame` may return when the stream is in the state `self`. A source
    /// that does not say more promises nothing about its frames.
    open spec fn yields(&self, out: Option<Frame>) -> bool {
        true
    }

    /// The next frame, or `None` once the stream is exhausted.
    fn next_frame(&mut self) -> (out: Option<Frame>)
        ensures
            old(self).yields(out),
    ;

    /// A hint of the total number of frames (`None` when unknown, which is what a source says
    /// unless it overrides this).
    fn size_hint(&self) -> (n: Option<u64>)
        default_ensures
            n == None::<u64>,
    {
        None
    }

    /// Chains the node `p` behind this source, like `Iterator::map`.
    fn pipe<P: Process>(self, p: P) -> (piped: Piped<Self, P>) where Self: Sized
        ensures
            piped.source() == self,
            piped.node() == p,
    {
        Piped { source: self, process: p }
    }
}

/// The adapter made by [`Pipeline::pipe`]: every frame of `source` goes through `process`,
/// with the frame's own context.
pub struct Piped<S, P> {
    source: S,
    process: P,
}

impl<S, P> Piped<S, P> {
    /// The upstream source.
    pub closed spec fn source(&self) -> S {
        self.source
    }

    /// The chained node.
    pub closed spec fn node(&self) -> P {
        self.process
    }
}

impl<S: Pipeline, P: Process> Pipeline for Piped<S, P> {
    /// `None` when the source may run out; otherwise a frame that the node may make of a frame
    /// that the source may yield, under that frame's own context.
    open spec fn yields(&self, out: Option<Frame>) -> bool {
        match out {
            None => self.source().yields(None),
            Some(o) => exists|f: Frame|
                #![trigger self.source().yields(Some(f))]
                self.source().yields(Some(f)) && self.node().processes(f, f.spec_ctx(), o),
        }
    }

    /// When the source has run out, the node is not called and stays as it was.
    fn next_frame(&mut self) -> (out: Option<Frame>)
        ensures
            out is None ==> final(self).node() == old(self).node(),
    {
        let next = self.source.next_frame();
        match next {
            None => None,
            Some(frame) => {
                let ghost f = frame;
                let ctx = frame.ctx();
                let out = self.process.process(frame, ctx);
                assert(old(self).source().yields(Some(f)));
                Some(out)
            },
        }
    }

    /// The source's hint.
    fn size_hint(&self) -> (n: Option<u64>)
        ensures
            call_ensures(S::size_hint, (&self.source(),), n),
    {
        self.source.size_hint()
    }
}

/// The combined length hint of a node that reads two streams in lockstep and stops as soon as
/// either runs out: the smaller of two known lengths, else whichever is known.
pub fn lockstep_size_hint(a: Option<u64>, b: Option<u64>) -> (n: Option<u64>)
    ensures
        n == match (a, b) {
            (Some(x), Some(y)) => Some(if x <= y { x } else { y }),
            (Some(x), None) => Some(x),
            (None, Some(y)) => Some(y),
            (None, None) => None,
        },
{
    match (a, b) {
        (Some(x), Some(y)) => Some(if x <= y { x } else { y }),
        (Some(x), None) | (None, Some(x)) => Some(x),
        (None, None) => None,
    }
}

} // verus!
