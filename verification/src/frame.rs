//! Frames: row-major RGBA8 pixel buffers with the context of the video frame they belong to.

use vstd::prelude::*;

use crate::pixel::Pixel;

verus! {

/// Context carried by every frame, so that nodes can see where in the video they are.
#[derive(Clone, Copy, Debug, PartialEq, Eq, Structural)]
pub struct FrameCtx {
    /// Frame number counted from 0 in the order the source produced the frames.
    pub index: u64,
    /// Presentation timestamp in the time base of the input stream.
    pub pts: i64,
    /// Seconds since the start of the video, as the IEEE-754 bit pattern of an `f32`
    /// (`f32::to_bits`); `0` is `0.0` seconds.
    pub seconds_bits: u32,
}

/// `y * w + x`, the offset of pixel `(x, y)` in a row-major buffer of width `w`.
pub open spec fn offset(x: int, y: int, w: int) -> int {
    y * w + x
}

/// Channel `c` (0 red, 1 green, 2 blue, 3 alpha) of `p`.
pub open spec fn channel(p: Pixel, c: int) -> u8 {
    if c == 0 {
        p.r
    } else if c == 1 {
        p.g
    } else if c == 2 {
        p.b
    } else {
        p.a
    }
}

/// The RGBA8 bytes of a pixel sequence: four bytes per pixel, in `r, g, b, a` order.
pub open spec fn rgba_bytes(s: Seq<Pixel>) -> Seq<u8> {
    Seq::new(s.len() * 4, |i: int| channel(s[i / 4], i % 4))
}

/// The pixels packed in RGBA8 bytes: byte `4 i + c` is channel `c` of pixel `i`.
pub open spec fn pixels_of_bytes(b: Seq<u8>) -> Seq<Pixel> {
    Seq::new(
        b.len() / 4,
        |i: int| Pixel { r: b[4 * i], g: b[4 * i + 1], b: b[4 * i + 2], a: b[4 * i + 3] },
    )
}

/// The offset of a pixel inside a `w` × `h` frame lies in the buffer, and so does the rest of
/// its row.
pub proof fn lemma_offset_in_bounds(x: int, y: int, w: int, h: int)
    requires
        0 <= x < w,
        0 <= y < h,
    ensures
        0 <= offset(x, y, w) < w * h,
        offset(x, y, w) + (w - x) <= w * h,
{
    assert(0 <= y * w + x < w * h) by (nonlinear_arith)
        requires 0 <= x < w, 0 <= y < h;
    assert(y * w + w <= w * h) by (nonlinear_arith)
        requires 0 <= x < w, 0 <= y < h;
}

/// The row and column of a pixel are the quotient and remainder of its offset by the width.
pub proof fn lemma_offset_split(x: int, y: int, w: int)
    requires
        0 <= x < w,
        0 <= y,
    ensures
        offset(x, y, w) / w == y,
        offset(x, y, w) % w == x,
{
    vstd::arithmetic::div_mod::lemma_fundamental_div_mod_converse(y * w + x, w, y, x);
}

proof fn lemma_byte_index(i: int, c: int)
    requires
        0 <= c < 4,
        0 <= i,
    ensures
        (4 * i + c) / 4 == i,
        (4 * i + c) % 4 == c,
{
    vstd::arithmetic::div_mod::lemma_fundamental_div_mod_converse(4 * i + c, 4, i, c);
}

/// Packing pixels into bytes and reading them back gives the pixels again.
pub proof fn lemma_bytes_roundtrip(s: Seq<Pixel>)
    ensures
        pixels_of_bytes(rgba_bytes(s)) == s,
{
    let b = rgba_bytes(s);
    assert(b.len() / 4 == s.len());
    assert forall|i: int| 0 <= i < s.len() implies #[trigger] pixels_of_bytes(b)[i] == s[i] by {
        lemma_byte_index(i, 0);
        lemma_byte_index(i, 1);
        lemma_byte_index(i, 2);
        lemma_byte_index(i, 3);
        assert(4 * i + 3 < s.len() * 4);
    }
    assert(pixels_of_bytes(b) =~= s);
}

/// One frame: `width * height` pixels in row-major order (pixel `(x, y)` is entry
/// `y * width + x`) together with its [`FrameCtx`].
pub struct Frame {
    width: u32,
    height: u32,
    data: Vec<Pixel>,
    ctx: FrameCtx,
}

impl Frame {
    #[verifier::type_invariant]
    spec fn holds_width_times_height_pixels(&self) -> bool {
        self.data.len() == self.width as int * self.height as int
    }

    /// The buffer holds exactly `width * height` pixels.
    pub open spec fn well_formed(&self) -> bool {
        self.pixels().len() == self.spec_width() as int * self.spec_height() as int
    }

    pub closed spec fn spec_width(&self) -> u32 {
        self.width
    }

    pub closed spec fn spec_height(&self) -> u32 {
        self.height
    }

    pub closed spec fn spec_ctx(&self) -> FrameCtx {
        self.ctx
    }

    /// The pixels in row-major order.
    pub closed spec fn pixels(&self) -> Seq<Pixel> {
        self.data@
    }

    /// Pixel `(x, y)`.
    pub open spec fn at(&self, x: int, y: int) -> Pixel {
        self.pixels()[offset(x, y, self.spec_width() as int)]
    }

    /// `(x, y)` lies inside the frame.
    pub open spec fn contains(&self, x: int, y: int) -> bool {
        0 <= x < self.spec_width() && 0 <= y < self.spec_height()
    }

    /// `self` is `other` with rows and columns exchanged.
    pub open spec fn is_transpose_of(&self, other: &Frame) -> bool {
        &&& self.spec_width() == other.spec_height()
        &&& self.spec_height() == other.spec_width()
        &&& forall|x: int, y: int| #[trigger]
            other.contains(x, y) ==> self.at(y, x) == other.at(x, y)
    }

    /// Width in pixels.
    #[verifier::when_used_as_spec(spec_width)]
    pub fn width(&self) -> (w: u32)
        ensures
            w == self.spec_width(),
            self.well_formed(),
    {
        proof {
            use_type_invariant(self);
        }
        self.width
    }

    /// Height in pixels.
    #[verifier::when_used_as_spec(spec_height)]
    pub fn height(&self) -> (h: u32)
        ensures
            h == self.spec_height(),
            self.well_formed(),
    {
        proof {
            use_type_invariant(self);
        }
        self.height
    }

    /// The frame's context.
    #[verifier::when_used_as_spec(spec_ctx)]
    pub fn ctx(&self) -> (c: FrameCtx)
        ensures
            c == self.spec_ctx(),
    {
        self.ctx
    }

    /// The pixel buffer as RGBA8 bytes (`width * height * 4` bytes, row-major).
    pub fn data(&self) -> (bytes: Vec<u8>)
        ensures
            bytes@ == rgba_bytes(self.pixels()),
    {
        proof {
            use_type_invariant(self);
        }
        let n = self.data.len();
        let mut out: Vec<u8> = Vec::new();
        let mut i: usize = 0;
        while i < n
            invariant
                n == self.data.len(),
                n <= usize::MAX,
                i <= n,
                out.len() == 4 * i,
                forall|k: int| 0 <= k < 4 * i ==> out@[k] == channel(self.data@[k / 4], k % 4),
            decreases n - i,
        {
            let p = self.data[i];
            proof {
                lemma_byte_index(i as int, 0);
                lemma_byte_index(i as int, 1);
                lemma_byte_index(i as int, 2);
                lemma_byte_index(i as int, 3);
            }
            out.push(p.r);
            out.push(p.g);
            out.push(p.b);
            out.push(p.a);
            i += 1;
        }
        assert(out@ =~= rgba_bytes(self.data@));
        out
    }

    /// A frame made of `data` (row-major, `width * height` pixels) and `ctx`.
    pub fn from_rgba(width: u32, height: u32, data: Vec<Pixel>, ctx: FrameCtx) -> (f: Frame)
        requires
            data.len() == width as int * height as int,
        ensures
            f.spec_width() == width,
            f.spec_height() == height,
            f.pixels() == data@,
            f.spec_ctx() == ctx,
            f.well_formed(),
    {
        Frame { width, height, data, ctx }
    }

    /// A `width` × `height` frame of opaque black pixels.
    pub fn black(width: u32, height: u32, ctx: FrameCtx) -> (f: Frame)
        requires
            width as int * height as int <= usize::MAX,
        ensures
            f.spec_width() == width,
            f.spec_height() == height,
            f.spec_ctx() == ctx,
            f.pixels().len() == width as int * height as int,
            forall|i: int| 0 <= i < f.pixels().len() ==> f.pixels()[i] == Pixel::black_spec(),
            f.well_formed(),
    {
        let n = width as usize * height as usize;
        let mut data: Vec<Pixel> = Vec::new();
        let mut i: usize = 0;
        while i < n
            invariant
                i <= n,
                data.len() == i,
                forall|k: int| 0 <= k < i ==> data@[k] == Pixel::black_spec(),
            decreases n - i,
        {
            data.push(Pixel::black());
            i += 1;
        }
        Frame { width, height, data, ctx }
    }

    /// A frame from packed RGBA8 bytes (row-major, `width * height * 4` bytes).
    pub fn from_rgba_bytes(width: u32, height: u32, bytes: &[u8], ctx: FrameCtx) -> (f: Frame)
        requires
            bytes.len() == width as int * height as int * 4,
        ensures
            f.spec_width() == width,
            f.spec_height() == height,
            f.spec_ctx() == ctx,
            f.pixels() == pixels_of_bytes(bytes@),
            f.well_formed(),
    {
        let n = bytes.len() / 4;
        assert(n == width as int * height as int);
        let mut data: Vec<Pixel> = Vec::new();
        let mut i: usize = 0;
        while i < n
            invariant
                n == bytes.len() / 4,
                bytes.len() == 4 * n,
                i <= n,
                data.len() == i,
                forall|k: int|
                    0 <= k < i ==> data@[k] == (Pixel {
                        r: bytes@[4 * k],
                        g: bytes@[4 * k + 1],
                        b: bytes@[4 * k + 2],
                        a: bytes@[4 * k + 3],
                    }),
            decreases n - i,
        {
            let j = 4 * i;
            data.push(Pixel::new(bytes[j], bytes[j + 1], bytes[j + 2], bytes[j + 3]));
            i += 1;
        }
        assert(data@ =~= pixels_of_bytes(bytes@));
        Frame { width, height, data, ctx }
    }

    /// Replaces the frame's context; the pixels stay.
    pub fn set_ctx(&mut self, ctx: FrameCtx)
        ensures
            final(self).spec_ctx() == ctx,
            final(self).spec_width() == old(self).spec_width(),
            final(self).spec_height() == old(self).spec_height(),
            final(self).pixels() == old(self).pixels(),
    {
        proof {
            use_type_invariant(&*self);
        }
        self.ctx = ctx;
    }

    /// Sets the frame number of the context.
    pub fn set_index(&mut self, index: u64)
        ensures
            final(self).spec_ctx() == (FrameCtx { index, ..old(self).spec_ctx() }),
            final(self).spec_width() == old(self).spec_width(),
            final(self).spec_height() == old(self).spec_height(),
            final(self).pixels() == old(self).pixels(),
    {
        proof {
            use_type_invariant(&*self);
        }
        self.ctx.index = index;
    }

    /// Offset of pixel `(x, y)` in the buffer.
    fn offset_of(&self, x: u32, y: u32) -> (i: usize)
        requires
            self.contains(x as int, y as int),
        ensures
            i == offset(x as int, y as int, self.spec_width() as int),
            i < self.pixels().len(),
    {
        proof {
            use_type_invariant(self);
            lemma_offset_in_bounds(x as int, y as int, self.width as int, self.height as int);
        }
        y as usize * self.width as usize + x as usize
    }

    /// Reads pixel `(x, y)`.
    pub fn get_pixel(&self, x: u32, y: u32) -> (p: Pixel)
        requires
            self.contains(x as int, y as int),
        ensures
            p == self.at(x as int, y as int),
    {
        let i = self.offset_of(x, y);
        self.data[i]
    }

    /// Writes pixel `(x, y)`; every other pixel stays.
    pub fn set_pixel(&mut self, x: u32, y: u32, px: Pixel)
        requires
            old(self).contains(x as int, y as int),
        ensures
            final(self).spec_width() == old(self).spec_width(),
            final(self).spec_height() == old(self).spec_height(),
            final(self).spec_ctx() == old(self).spec_ctx(),
            final(self).pixels() == old(self).pixels().update(
                offset(x as int, y as int, old(self).spec_width() as int),
                px,
            ),
    {
        proof {
            use_type_invariant(&*self);
        }
        let i = self.offset_of(x, y);
        self.data[i] = px;
    }

    /// Row `y` as a vector of `width` pixels.
    pub fn row(&self, y: u32) -> (r: Vec<Pixel>)
        requires
            y < self.spec_height(),
        ensures
            r.len() == self.spec_width(),
            forall|x: int| 0 <= x < self.spec_width() ==> r@[x] == self.at(x, y as int),
    {
        proof {
            use_type_invariant(self);
        }
        let w = self.width;
        let mut r: Vec<Pixel> = Vec::new();
        let mut x: u32 = 0;
        while x < w
            invariant
                w == self.spec_width(),
                y < self.spec_height(),
                self.data.len() == self.width as int * self.height as int,
                x <= w,
                r.len() == x,
                forall|k: int| 0 <= k < x ==> r@[k] == self.at(k, y as int),
            decreases w - x,
        {
            let i = self.offset_of(x, y);
            r.push(self.data[i]);
            x += 1;
        }
        r
    }

    /// Replaces row `y` with `row`; every other row stays.
    pub fn set_row(&mut self, y: u32, row: &Vec<Pixel>)
        requires
            y < old(self).spec_height(),
            row.len() == old(self).spec_width(),
        ensures
            final(self).spec_width() == old(self).spec_width(),
            final(self).spec_height() == old(self).spec_height(),
            final(self).spec_ctx() == old(self).spec_ctx(),
            forall|x: int, yy: int|
                #![trigger final(self).at(x, yy)]
                old(self).contains(x, yy) ==> final(self).at(x, yy) == if yy == y {
                    row@[x]
                } else {
                    old(self).at(x, yy)
                },
    {
        proof {
            use_type_invariant(&*self);
        }
        let w = self.width;
        let mut x: u32 = 0;
        while x < w
            invariant
                w == self.spec_width(),
                w == old(self).spec_width(),
                self.spec_height() == old(self).spec_height(),
                self.spec_ctx() == old(self).spec_ctx(),
                y < self.spec_height(),
                row.len() == w,
                x <= w,
                self.data.len() == old(self).data.len(),
                old(self).data.len() == w as int * self.height as int,
                forall|xx: int, yy: int|
                    #![trigger self.at(xx, yy)]
                    old(self).contains(xx, yy) ==> self.at(xx, yy) == if yy == y && xx < x {
                        row@[xx]
                    } else {
                        old(self).at(xx, yy)
                    },
            decreases w - x,
        {
            let i = self.offset_of(x, y);
            let ghost prev = *self;
            self.data[i] = row[x as usize];
            proof {
                assert(self.data@ == prev.data@.update(i as int, row@[x as int]));
                assert forall|xx: int, yy: int|
                    #![trigger self.at(xx, yy)]
                    old(self).contains(xx, yy) implies self.at(xx, yy) == if yy == y && xx < x + 1 {
                        row@[xx]
                    } else {
                        old(self).at(xx, yy)
                    } by {
                    lemma_offset_in_bounds(xx, yy, w as int, self.height as int);
                    lemma_offset_in_bounds(x as int, y as int, w as int, self.height as int);
                    lemma_offset_split(xx, yy, w as int);
                    lemma_offset_split(x as int, y as int, w as int);
                    assert(prev.at(xx, yy) == if yy == y && xx < x {
                        row@[xx]
                    } else {
                        old(self).at(xx, yy)
                    });
                }
            }
            x += 1;
        }
    }

    /// A new frame with rows and columns exchanged: width and height swap and pixel `(y, x)` of
    /// the result is pixel `(x, y)` of `self`; the context is kept.
    pub fn transposed(&self) -> (t: Frame)
        ensures
            t.is_transpose_of(self),
            t.spec_ctx() == self.spec_ctx(),
            t.well_formed(),
    {
        proof {
            use_type_invariant(self);
        }
        let w = self.width as usize;
        let h = self.height as usize;
        let mut data: Vec<Pixel> = Vec::new();
        let mut x: usize = 0;
        while x < w
            invariant
                w == self.width,
                h == self.height,
                self.data.len() == w * h,
                x <= w,
                data.len() == x * h,
                forall|k: int|
                    0 <= k < data.len() ==> #[trigger] data@[k] == self.data@[offset(
                        k / h as int,
                        k % h as int,
                        w as int,
                    )],
            decreases w - x,
        {
            let mut y: usize = 0;
            while y < h
                invariant
                    w == self.width,
                    h == self.height,
                    self.data.len() == w * h,
                    x < w,
                    y <= h,
                    data.len() == x * h + y,
                    forall|k: int|
                        0 <= k < data.len() ==> #[trigger] data@[k] == self.data@[offset(
                            k / h as int,
                            k % h as int,
                            w as int,
                        )],
                decreases h - y,
            {
                proof {
                    lemma_offset_in_bounds(x as int, y as int, w as int, h as int);
                    lemma_offset_split(y as int, x as int, h as int);
                    assert(x * h + y < w * h) by (nonlinear_arith)
                        requires x < w, y < h;
                }
                data.push(self.data[y * w + x]);
                y += 1;
            }
            proof {
                assert((x + 1) * h == x * h + h) by (nonlinear_arith);
            }
            x += 1;
        }
        let t = Frame { width: self.height, height: self.width, data, ctx: self.ctx };
        proof {
            assert forall|x: int, y: int| #[trigger] self.contains(x, y) implies t.at(y, x) == self.at(x, y) by {
                lemma_offset_in_bounds(y, x, h as int, w as int);
                lemma_offset_split(y, x, h as int);
            }
            assert(w * h == h * w) by (nonlinear_arith);
        }
        t
    }
}

impl Clone for Frame {
    /// A copy with the same size, pixels and context.
    fn clone(&self) -> (f: Frame)
        ensures
            f.spec_width() == self.spec_width(),
            f.spec_height() == self.spec_height(),
            f.spec_ctx() == self.spec_ctx(),
            f.pixels() == self.pixels(),
    {
        proof {
            use_type_invariant(self);
        }
        let n = self.data.len();
        let mut data: Vec<Pixel> = Vec::new();
        let mut i: usize = 0;
        while i < n
            invariant
                n == self.data.len(),
                i <= n,
                data.len() == i,
                forall|k: int| 0 <= k < i ==> data@[k] == self.data@[k],
            decreases n - i,
        {
            data.push(self.data[i]);
            i += 1;
        }
        assert(data@ =~= self.data@);
        Frame { width: self.width, height: self.height, data, ctx: self.ctx }
    }
}

/// Transposing twice gives back the original pixels, size and all.
pub proof fn lemma_transpose_twice(f: &Frame, t: &Frame, u: &Frame)
    requires
        f.well_formed(),
        u.well_formed(),
        t.is_transpose_of(f),
        u.is_transpose_of(t),
    ensures
        u.spec_width() == f.spec_width(),
        u.spec_height() == f.spec_height(),
        u.pixels() == f.pixels(),
{
    assert forall|x: int, y: int| #[trigger] f.contains(x, y) implies u.at(x, y) == f.at(x, y) by {
        assert(t.contains(y, x));
    }
    lemma_same_pixels(u, f);
}

/// Two well-formed frames of one size that agree at every `(x, y)` hold the same pixels.
pub proof fn lemma_same_pixels(a: &Frame, b: &Frame)
    requires
        a.well_formed(),
        b.well_formed(),
        a.spec_width() == b.spec_width(),
        a.spec_height() == b.spec_height(),
        forall|x: int, y: int| #[trigger] b.contains(x, y) ==> a.at(x, y) == b.at(x, y),
    ensures
        a.pixels() == b.pixels(),
{
    let w = b.spec_width() as int;
    let h = b.spec_height() as int;
    assert forall|k: int| 0 <= k < a.pixels().len() implies #[trigger] a.pixels()[k] == b.pixels()[k] by {
        let x = k % w;
        let y = k / w;
        assert(w > 0) by (nonlinear_arith)
            requires 0 <= k < w * h, h >= 0, w >= 0;
        vstd::arithmetic::div_mod::lemma_fundamental_div_mod(k, w);
        assert(0 <= y < h) by (nonlinear_arith)
            requires 0 <= k < w * h, y == k / w, w > 0, h >= 0;
        assert(b.contains(x, y));
        assert(k == offset(x, y, w)) by (nonlinear_arith)
            requires k == w * (k / w) + k % w, x == k % w, y == k / w;
    }
    assert(a.pixels() =~= b.pixels());
}

} // verus!
