use vstd::prelude::*;

verus! {

/// Row-major index of pixel `(x, y)` in an image `w` pixels wide.
pub open spec fn pixel_index(x: int, y: int, w: int) -> int {
    y * w + x
}

/// Facts about the row-major layout: an in-bounds coordinate lands inside
/// the buffer, and the index gives the coordinate back by `/` and `%`.
pub proof fn lemma_pixel_index(x: int, y: int, w: int, h: int)
    requires
        0 <= x < w,
        0 <= y < h,
    ensures
        0 <= pixel_index(x, y, w) < w * h,
        pixel_index(x, y, w) / w == y,
        pixel_index(x, y, w) % w == x,
{
    assert(0 <= y * w + x < w * h) by (nonlinear_arith)
        requires
            0 <= x < w,
            0 <= y < h,
    ;
    vstd::arithmetic::div_mod::lemma_fundamental_div_mod_converse(y * w + x, w, y, x);
}

/// A flat index inside a `w`-wide buffer of `w * h` pixels splits into an
/// in-bounds coordinate.
pub proof fn lemma_index_split(i: int, w: int, h: int)
    requires
        0 <= i < w * h,
        w > 0,
    ensures
        0 <= i % w < w,
        0 <= i / w < h,
        pixel_index(i % w, i / w, w) == i,
{
    vstd::arithmetic::div_mod::lemma_fundamental_div_mod(i, w);
    vstd::arithmetic::div_mod::lemma_mod_bound(i, w);
    let q = i / w;
    let r = i % w;
    assert(0 <= q < h) by (nonlinear_arith)
        requires
            i == w * q + r,
            0 <= r < w,
            0 <= i < w * h,
            w > 0,
    ;
    assert(q * w == w * q) by (nonlinear_arith);
}

/// Any flat index below `w * h` (with `h >= 0`) proves the image nonempty.
pub proof fn lemma_nonempty(i: int, w: int, h: int)
    requires
        0 <= i < w * h,
        w >= 0,
        h >= 0,
    ensures
        w > 0,
        h > 0,
{
    if w == 0 {
        assert(w * h == 0);
    }
    if h == 0 {
        assert(w * h == 0);
    }
}

/// The mathematical content of an image: its size and its row-major pixels.
#[verifier::ext_equal]
pub struct FrameView {
    pub width: int,
    pub height: int,
    pub pixels: Seq<u8>,
}

impl FrameView {
    /// Sizes fit in `u32` and the pixel sequence is exactly `width * height` long.
    pub open spec fn wf(self) -> bool {
        &&& 0 <= self.width <= u32::MAX
        &&& 0 <= self.height <= u32::MAX
        &&& self.pixels.len() == self.width * self.height
    }

    /// The pixel at column `x`, row `y`.
    pub open spec fn at(self, x: int, y: int) -> u8 {
        self.pixels[pixel_index(x, y, self.width)]
    }

    /// `x, y` is a coordinate inside the image.
    pub open spec fn contains(self, x: int, y: int) -> bool {
        0 <= x < self.width && 0 <= y < self.height
    }

    /// Every coordinate of a `width` by `height` image is inside `self`.
    pub open spec fn covers(self, width: int, height: int) -> bool {
        width <= self.width && height <= self.height
    }
}

/// `a - b`, or 0 when `b` is the brighter.
pub open spec fn sat_sub(a: u8, b: u8) -> u8 {
    if a > b {
        (a - b) as u8
    } else {
        0
    }
}

/// The brighter-than-background part of `f`: each pixel minus the pixel of
/// `bg` at the same coordinate, clamped at 0. The result has the size of `f`.
pub open spec fn background_diff(f: FrameView, bg: FrameView) -> FrameView {
    FrameView {
        width: f.width,
        height: f.height,
        pixels: Seq::new(
            f.pixels.len(),
            |i: int| sat_sub(f.pixels[i], bg.at(i % f.width, i / f.width)),
        ),
    }
}

/// The photographic negative of `f`.
pub open spec fn inverted(f: FrameView) -> FrameView {
    FrameView {
        width: f.width,
        height: f.height,
        pixels: Seq::new(f.pixels.len(), |i: int| (255 - f.pixels[i]) as u8),
    }
}

/// The background difference read at a coordinate is the clamped difference
/// of the two pixels there.
pub proof fn lemma_background_diff_at(f: FrameView, bg: FrameView, x: int, y: int)
    requires
        f.wf(),
        f.contains(x, y),
    ensures
        background_diff(f, bg).at(x, y) == sat_sub(f.at(x, y), bg.at(x, y)),
{
    lemma_pixel_index(x, y, f.width, f.height);
}

/// Taking the negative twice gives the image back.
pub proof fn lemma_invert_involution(f: FrameView)
    ensures
        inverted(inverted(f)) == f,
{
    assert(inverted(inverted(f)).pixels =~= f.pixels);
    assert(inverted(inverted(f)) =~= f);
}

/// An image minus itself as background is black: nothing in it is brighter
/// than the background.
pub proof fn lemma_self_background_is_black(f: FrameView)
    requires
        f.wf(),
    ensures
        forall|i: int| 0 <= i < f.pixels.len() ==> #[trigger] background_diff(f, f).pixels[i] == 0,
{
    assert forall|i: int| 0 <= i < f.pixels.len() implies #[trigger] background_diff(f, f).pixels[i]
        == 0 by {
        lemma_nonempty(i, f.width, f.height);
        lemma_index_split(i, f.width, f.height);
    }
}

/// An 8-bit single-channel image, stored row by row.
pub struct GrayFrame {
    pub width: u32,
    pub height: u32,
    pub pixels: Vec<u8>,
}

impl View for GrayFrame {
    type V = FrameView;

    open spec fn view(&self) -> FrameView {
        FrameView { width: self.width as int, height: self.height as int, pixels: self.pixels@ }
    }
}

impl GrayFrame {
    /// The buffer holds exactly `width * height` pixels.
    pub open spec fn wf(&self) -> bool {
        self@.wf()
    }

    /// Wraps a raw row-major buffer; `None` when its length is not
    /// `width * height`.
    pub fn from_raw(width: u32, height: u32, pixels: Vec<u8>) -> (r: Option<GrayFrame>)
        ensures
            r is Some <==> pixels@.len() == width * height,
            r matches Some(f) ==> f.wf() && f.width == width && f.height == height
                && f.pixels@ == pixels@,
    {
        proof {
            assert(width * height <= 0xffff_ffff * 0xffff_ffffu64) by (nonlinear_arith)
                requires
                    width <= 0xffff_ffffu32,
                    height <= 0xffff_ffffu32,
            ;
        }
        let n: u64 = width as u64 * height as u64;
        if pixels.len() as u64 == n {
            Some(GrayFrame { width, height, pixels })
        } else {
            None
        }
    }

    /// An all-black image.
    pub fn new(width: u32, height: u32) -> (r: GrayFrame)
        requires
            width * height <= usize::MAX,
        ensures
            r.wf(),
            r.width == width,
            r.height == height,
            forall|i: int| 0 <= i < r.pixels@.len() ==> r.pixels@[i] == 0,
    {
        let n: usize = width as usize * height as usize;
        let mut pixels: Vec<u8> = Vec::with_capacity(n);
        let mut i: usize = 0;
        while i < n
            invariant
                i <= n,
                pixels@.len() == i,
                forall|j: int| 0 <= j < i ==> pixels@[j] == 0,
            decreases n - i,
        {
            pixels.push(0u8);
            i += 1;
        }
        GrayFrame { width, height, pixels }
    }

    /// The pixel at column `x`, row `y`.
    pub fn get_pixel(&self, x: u32, y: u32) -> (v: u8)
        requires
            self.wf(),
            x < self.width,
            y < self.height,
        ensures
            v == self@.at(x as int, y as int),
    {
        // The buffer's length is a `usize`, which bounds the index below.
        let _len = self.pixels.len();
        proof {
            lemma_pixel_index(x as int, y as int, self.width as int, self.height as int);
            assert(y * self.width + x < self.pixels@.len());
        }
        let i = y as usize * self.width as usize + x as usize;
        self.pixels[i]
    }

    /// An exact copy.
    pub fn duplicate(&self) -> (r: GrayFrame)
        ensures
            r@ == self@,
    {
        let n = self.pixels.len();
        let mut pixels: Vec<u8> = Vec::with_capacity(n);
        let mut i: usize = 0;
        while i < n
            invariant
                i <= n,
                n == self.pixels@.len(),
                pixels@ == self.pixels@.take(i as int),
            decreases n - i,
        {
            pixels.push(self.pixels[i]);
            i += 1;
            proof {
                assert(pixels@ =~= self.pixels@.take(i as int));
            }
        }
        proof {
            assert(pixels@ =~= self.pixels@);
        }
        GrayFrame { width: self.width, height: self.height, pixels }
    }
}

/// Subtracts a background image, clamping at 0, so that only what is
/// brighter than the background remains. `background` is read at the same
/// coordinates and must be at least as large as `frame`.
pub fn subtract_background(frame: &GrayFrame, background: &GrayFrame) -> (diff: GrayFrame)
    requires
        frame.wf(),
        background.wf(),
        background@.covers(frame.width as int, frame.height as int),
    ensures
        diff.wf(),
        diff@ == background_diff(frame@, background@),
{
    let n = frame.pixels.len();
    let w = frame.width;
    let mut out: Vec<u8> = Vec::with_capacity(n);
    let mut i: usize = 0;
    while i < n
        invariant
            frame.wf(),
            background.wf(),
            background@.covers(frame.width as int, frame.height as int),
            n == frame.pixels@.len(),
            w == frame.width,
            i <= n,
            out@.len() == i,
            forall|j: int|
                0 <= j < i ==> out@[j] == sat_sub(
                    frame.pixels@[j],
                    background@.at(j % (w as int), j / (w as int)),
                ),
        decreases n - i,
    {
        proof {
            lemma_nonempty(i as int, w as int, frame.height as int);
            lemma_index_split(i as int, w as int, frame.height as int);
        }
        let x = (i % w as usize) as u32;
        let y = (i / w as usize) as u32;
        let b = background.get_pixel(x, y);
        let f = frame.pixels[i];
        let d = if f > b {
            f - b
        } else {
            0
        };
        out.push(d);
        i += 1;
    }
    let diff = GrayFrame { width: frame.width, height: frame.height, pixels: out };
    proof {
        assert(diff@ =~= background_diff(frame@, background@));
    }
    diff
}

/// The `width` by `height` block of `image` whose top-left pixel is
/// `(x0, y0)`.
pub fn crop(image: &GrayFrame, x0: u32, y0: u32, width: u32, height: u32) -> (r: GrayFrame)
    requires
        image.wf(),
        x0 + width <= image.width,
        y0 + height <= image.height,
    ensures
        r.wf(),
        r.width == width,
        r.height == height,
        forall|x: int, y: int|
            0 <= x < width && 0 <= y < height ==> #[trigger] r@.at(x, y) == image@.at(x0 + x, y0 + y),
{
    let mut pixels: Vec<u8> = Vec::new();
    let mut y: u32 = 0;
    proof {
        assert(width * height <= image.width * image.height) by (nonlinear_arith)
            requires
                width <= image.width,
                height <= image.height,
        ;
    }
    while y < height
        invariant
            image.wf(),
            x0 + width <= image.width,
            y0 + height <= image.height,
            y <= height,
            pixels@.len() == y * width,
            forall|xx: int, yy: int|
                0 <= xx < width && 0 <= yy < y ==> #[trigger] pixels@[pixel_index(xx, yy, width as int)]
                    == image@.at(x0 + xx, y0 + yy),
        decreases height - y,
    {
        let ghost row_start = pixels@;
        let mut x: u32 = 0;
        while x < width
            invariant
                image.wf(),
                x0 + width <= image.width,
                y0 + height <= image.height,
                y < height,
                x <= width,
                row_start.len() == y * width,
                pixels@.len() == y * width + x,
                pixels@.subrange(0, row_start.len() as int) == row_start,
                forall|xx: int| 0 <= xx < x ==> #[trigger] pixels@[y * width + xx] == image@.at(x0 + xx, y0 + y),
            decreases width - x,
        {
            let v = image.get_pixel(x0 + x, y0 + y);
            pixels.push(v);
            x += 1;
        }
        proof {
            assert forall|xx: int, yy: int|
                0 <= xx < width && 0 <= yy < y + 1 implies #[trigger] pixels@[pixel_index(xx, yy, width as int)]
                == image@.at(x0 + xx, y0 + yy) by {
                let k = pixel_index(xx, yy, width as int);
                if yy < y {
                    assert(0 <= k < y * width) by (nonlinear_arith)
                        requires
                            k == yy * width + xx,
                            0 <= xx < width,
                            0 <= yy < y,
                    ;
                    assert(pixels@[k] == pixels@.subrange(0, row_start.len() as int)[k]);
                } else {
                    assert(k == y * width + xx);
                }
            }
            assert((y + 1) * width == y * width + width) by (nonlinear_arith);
        }
        y += 1;
    }
    let r = GrayFrame { width, height, pixels };
    proof {
        assert(y * width == width * height) by (nonlinear_arith)
            requires
                y == height,
        ;
        assert forall|x: int, yy: int| 0 <= x < width && 0 <= yy < height implies #[trigger] r@.at(x, yy)
            == image@.at(x0 + x, y0 + yy) by {
            assert(pixels@[pixel_index(x, yy, width as int)] == image@.at(x0 + x, y0 + yy));
        }
    }
    r
}

/// The photographic negative: every pixel `p` becomes `255 - p`.
pub fn invert_image(image: &GrayFrame) -> (r: GrayFrame)
    ensures
        r@ == inverted(image@),
{
    let n = image.pixels.len();
    let mut out: Vec<u8> = Vec::with_capacity(n);
    let mut i: usize = 0;
    while i < n
        invariant
            n == image.pixels@.len(),
            i <= n,
            out@.len() == i,
            forall|j: int| 0 <= j < i ==> out@[j] == (255 - image.pixels@[j]) as u8,
        decreases n - i,
    {
        out.push(255u8 - image.pixels[i]);
        i += 1;
    }
    let r = GrayFrame { width: image.width, height: image.height, pixels: out };
    proof {
        assert(r@ =~= inverted(image@));
    }
    r
}

} // verus!
