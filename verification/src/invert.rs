//! The colour inversion node.

use vstd::prelude::*;

use crate::frame::{Frame, FrameCtx};
use crate::process::Process;

verus! {

/// Pure per-pixel node without state: every colour channel becomes `255 - value`, the alpha
/// stays.
pub struct Invert;

/// `out` is `frame` with every pixel's colour channels inverted, size and context kept.
pub open spec fn is_inversion_of(out: &Frame, frame: &Frame) -> bool {
    &&& out.spec_width() == frame.spec_width()
    &&& out.spec_height() == frame.spec_height()
    &&& out.spec_ctx() == frame.spec_ctx()
    &&& forall|x: int, y: int| #[trigger]
        frame.contains(x, y) ==> out.at(x, y) == frame.at(x, y).inverted()
}

impl Process for Invert {
    open spec fn processes(&self, frame: Frame, ctx: FrameCtx, out: Frame) -> bool {
        is_inversion_of(&out, &frame) && out.well_formed()
    }

    fn process(&mut self, frame: Frame, ctx: FrameCtx) -> (out: Frame)
        ensures
            is_inversion_of(&out, &frame),
            out.well_formed(),
    {
        let ghost original = frame;
        let mut frame = frame;
        let h = frame.height();
        let w = frame.width();
        let mut y: u32 = 0;
        while y < h
            invariant
                h == original.spec_height(),
                w == original.spec_width(),
                frame.spec_width() == w,
                frame.spec_height() == h,
                frame.spec_ctx() == original.spec_ctx(),
                original.well_formed(),
                frame.pixels().len() == original.pixels().len(),
                y <= h,
                forall|xx: int, yy: int|
                    #![trigger frame.at(xx, yy)]
                    original.contains(xx, yy) ==> frame.at(xx, yy) == if yy < y {
                        original.at(xx, yy).inverted()
                    } else {
                        original.at(xx, yy)
                    },
            decreases h - y,
        {
            let mut x: u32 = 0;
            while x < w
                invariant
                    h == original.spec_height(),
                    w == original.spec_width(),
                    frame.spec_width() == w,
                    frame.spec_height() == h,
                    frame.spec_ctx() == original.spec_ctx(),
                    original.well_formed(),
                    frame.pixels().len() == original.pixels().len(),
                    y < h,
                    x <= w,
                    forall|xx: int, yy: int|
                        #![trigger frame.at(xx, yy)]
                        original.contains(xx, yy) ==> frame.at(xx, yy) == if yy < y || (yy == y
                            && xx < x) {
                            original.at(xx, yy).inverted()
                        } else {
                            original.at(xx, yy)
                        },
                decreases w - x,
            {
                proof {
                    crate::frame::lemma_offset_in_bounds(x as int, y as int, w as int, h as int);
                }
                let px = frame.get_pixel(x, y);
                let ghost before = frame;
                frame.set_pixel(x, y, px.invert());
                proof {
                    assert forall|xx: int, yy: int|
                        #![trigger frame.at(xx, yy)]
                        original.contains(xx, yy) implies frame.at(xx, yy) == if yy < y || (yy
                            == y && xx < x + 1) {
                            original.at(xx, yy).inverted()
                        } else {
                            original.at(xx, yy)
                        } by {
                        crate::frame::lemma_offset_in_bounds(xx, yy, w as int, h as int);
                        crate::frame::lemma_offset_split(xx, yy, w as int);
                        crate::frame::lemma_offset_split(x as int, y as int, w as int);
                        assert(before.at(xx, yy) == if yy < y || (yy == y && xx < x) {
                            original.at(xx, yy).inverted()
                        } else {
                            original.at(xx, yy)
                        });
                    }
                }
                x += 1;
            }
            y += 1;
        }
        frame
    }
}

/// Inverting a frame twice gives back its pixels.
pub proof fn lemma_invert_twice(f: &Frame, g: &Frame, h: &Frame)
    requires
        f.well_formed(),
        h.well_formed(),
        is_inversion_of(g, f),
        is_inversion_of(h, g),
    ensures
        h.pixels() == f.pixels(),
        h.spec_width() == f.spec_width(),
        h.spec_height() == f.spec_height(),
{
    assert forall|x: int, y: int| #[trigger] f.contains(x, y) implies h.at(x, y) == f.at(x, y) by {
        assert(g.contains(x, y));
        crate::pixel::lemma_invert_involutive(f.at(x, y));
    }
    crate::frame::lemma_same_pixels(h, f);
}

} // verus!
