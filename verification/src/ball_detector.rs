use vstd::prelude::*;
use crate::frame::{
    FrameView, GrayFrame, background_diff, lemma_index_split, lemma_pixel_index, pixel_index,
    subtract_background,
};

verus! {

/// The ball radius, in pixels, that the detector expects at working range.
pub const EXPECTED_BALL_RADIUS_PX: u32 = 12;

/// Half-size of the square searched around the brightest pixel.
pub const PEAK_WINDOW: u32 = EXPECTED_BALL_RADIUS_PX * 3;

/// Why a frame yielded no ball.
#[derive(Debug, Clone, Copy, PartialEq, Eq)]
pub enum DetectionError {
    /// Nothing bright enough, or too few bright pixels around the peak.
    NotFound,
    /// The ball touches the frame edge.
    Clipped,
}

/// A detected ball, held as exact integer moments of the bright pixels
/// around the peak. The centre is `weighted_x / total_weight`,
/// `weighted_y / total_weight`; the radius is `max(x_span, y_span) / 2 + 2`.
#[derive(Debug, Clone, Copy, PartialEq, Eq)]
pub struct BallDetection {
    /// Sum of `x * value` over the counted pixels.
    pub weighted_x: u64,
    /// Sum of `y * value` over the counted pixels.
    pub weighted_y: u64,
    /// Sum of the counted pixel values.
    pub total_weight: u64,
    /// Horizontal extent of the counted pixels (last column minus first).
    pub x_span: u32,
    /// Vertical extent of the counted pixels.
    pub y_span: u32,
}

impl BallDetection {
    /// What every detection of the peak detector satisfies: the weight is at
    /// most that of a full window of white pixels, and each weighted
    /// coordinate is at most `u32::MAX` times the weight (so a zero weight
    /// has zero moments).
    pub open spec fn wf(self) -> bool {
        &&& self.total_weight <= 5329 * 255
        &&& self.weighted_x <= 0xffff_ffff * self.total_weight
        &&& self.weighted_y <= 0xffff_ffff * self.total_weight
    }

    /// Twice the radius: `max(x_span, y_span) + 4`.
    pub open spec fn diameter(self) -> int {
        if self.x_span >= self.y_span {
            self.x_span + 4
        } else {
            self.y_span + 4
        }
    }

    /// Twice the radius, `max(x_span, y_span) + 4`, so that radii compare
    /// exactly as integers.
    pub fn radius_doubled(&self) -> (r: u64)
        ensures
            r == self.diameter(),
    {
        if self.x_span >= self.y_span {
            self.x_span as u64 + 4
        } else {
            self.y_span as u64 + 4
        }
    }
}

/// The largest value of `s`, or 0 for an empty sequence.
pub open spec fn seq_max(s: Seq<u8>) -> u8
    decreases s.len(),
{
    if s.len() == 0 {
        0
    } else {
        let m = seq_max(s.drop_last());
        if s.last() > m {
            s.last()
        } else {
            m
        }
    }
}

/// Position of the first occurrence of `v` in `s`.
pub open spec fn first_index_of(s: Seq<u8>, v: u8) -> int
    decreases s.len(),
{
    if s.len() == 0 {
        0
    } else if s[0] == v {
        0
    } else {
        1 + first_index_of(s.drop_first(), v)
    }
}

/// Flat index of the brightest pixel: the first pixel that reaches the
/// maximum, or 0 when every pixel is black.
pub open spec fn peak_index(s: Seq<u8>) -> int {
    if seq_max(s) == 0 {
        0
    } else {
        first_index_of(s, seq_max(s))
    }
}

/// First column (or row) of the search window around coordinate `c`.
pub open spec fn window_lo(c: int) -> int {
    if c >= PEAK_WINDOW {
        c - PEAK_WINDOW
    } else {
        0
    }
}

/// Last column (or row) of the search window around `c` in an image
/// `size` pixels across.
pub open spec fn window_hi(c: int, size: int) -> int {
    if c + PEAK_WINDOW <= size - 1 {
        c + PEAK_WINDOW
    } else {
        size - 1
    }
}

/// Moments and bounding box of the pixels counted so far.
pub struct WindowStats {
    pub wx: int,
    pub wy: int,
    pub weight: int,
    pub count: int,
    pub min_x: int,
    pub max_x: int,
    pub min_y: int,
    pub max_y: int,
}

/// Nothing counted yet; the bounding box starts inverted.
pub open spec fn empty_stats() -> WindowStats {
    WindowStats {
        wx: 0,
        wy: 0,
        weight: 0,
        count: 0,
        min_x: u32::MAX as int,
        max_x: 0,
        min_y: u32::MAX as int,
        max_y: 0,
    }
}

/// Counts pixel `(x, y)` of value `v` when `v` reaches the threshold `t`.
pub open spec fn add_pixel(st: WindowStats, x: int, y: int, v: int, t: int) -> WindowStats {
    if v >= t {
        WindowStats {
            wx: st.wx + x * v,
            wy: st.wy + y * v,
            weight: st.weight + v,
            count: st.count + 1,
            min_x: if x < st.min_x { x } else { st.min_x },
            max_x: if x > st.max_x { x } else { st.max_x },
            min_y: if y < st.min_y { y } else { st.min_y },
            max_y: if y > st.max_y { y } else { st.max_y },
        }
    } else {
        st
    }
}

/// `st` after counting the pixels of row `y`, columns `xl` up to (not
/// including) `xh`.
pub open spec fn scan_row(f: FrameView, y: int, xl: int, xh: int, t: int, st: WindowStats) -> WindowStats
    decreases xh - xl,
{
    if xh <= xl {
        st
    } else {
        add_pixel(scan_row(f, y, xl, xh - 1, t, st), xh - 1, y, f.at(xh - 1, y) as int, t)
    }
}

/// Statistics of the pixels of value at least `t` in columns `xl..xh`,
/// rows `yl..yh` (upper bounds excluded).
pub open spec fn scan_window(f: FrameView, xl: int, xh: int, yl: int, yh: int, t: int) -> WindowStats
    decreases yh - yl,
{
    if yh <= yl {
        empty_stats()
    } else {
        scan_row(f, yh - 1, xl, xh, t, scan_window(f, xl, xh, yl, yh - 1, t))
    }
}

/// The ball would overlap the frame edge: its centre lies within the margin
/// `max(radius, EXPECTED_BALL_RADIUS_PX)` of a border. Stated on doubled
/// values with the centre as an exact fraction, so that a centre exactly on
/// the margin is decided by its exact value, not by a rounded one; a zero
/// total weight has no centre and is never clipped.
pub open spec fn is_clipped(st: WindowStats, w: int, h: int) -> bool {
    let span = if st.max_x - st.min_x >= st.max_y - st.min_y {
        st.max_x - st.min_x
    } else {
        st.max_y - st.min_y
    };
    let m2 = if span + 4 >= 2 * EXPECTED_BALL_RADIUS_PX {
        span + 4
    } else {
        2 * EXPECTED_BALL_RADIUS_PX
    };
    &&& st.weight > 0
    &&& {
        ||| 2 * st.wx < m2 * st.weight
        ||| 2 * st.wx + m2 * st.weight >= 2 * w * st.weight
        ||| 2 * st.wy < m2 * st.weight
        ||| 2 * st.wy + m2 * st.weight >= 2 * h * st.weight
    }
}

/// The detection that window statistics describe.
pub open spec fn detection_of(st: WindowStats) -> BallDetection {
    BallDetection {
        weighted_x: st.wx as u64,
        weighted_y: st.wy as u64,
        total_weight: st.weight as u64,
        x_span: (st.max_x - st.min_x) as u32,
        y_span: (st.max_y - st.min_y) as u32,
    }
}

/// The window statistics of the peak search: all pixels of at least a third
/// of the peak value within `PEAK_WINDOW` of the brightest pixel.
pub open spec fn peak_window_stats(f: FrameView) -> WindowStats {
    let pv = seq_max(f.pixels);
    let pi = peak_index(f.pixels);
    let px = pi % f.width;
    let py = pi / f.width;
    scan_window(
        f,
        window_lo(px),
        window_hi(px, f.width) + 1,
        window_lo(py),
        window_hi(py, f.height) + 1,
        (pv / 3) as int,
    )
}

/// Result of the peak detector on image `f`: the brightest pixel must reach
/// `threshold`; the pixels of at least a third of its value in the window
/// around it must number at least `min_pixels`; and the ball they form must
/// not touch the frame edge.
pub open spec fn detect_peak_result(threshold: u8, min_pixels: usize, f: FrameView) -> Result<
    BallDetection,
    DetectionError,
> {
    if seq_max(f.pixels) < threshold {
        Err(DetectionError::NotFound)
    } else {
        let st = peak_window_stats(f);
        if st.count < min_pixels {
            Err(DetectionError::NotFound)
        } else if is_clipped(st, f.width, f.height) {
            Err(DetectionError::Clipped)
        } else {
            Ok(detection_of(st))
        }
    }
}

/// The inputs on which the peak search has a window to scan: when the peak
/// reaches the threshold, the image is nonempty and the window's far edge
/// fits in `u32`.
pub open spec fn peak_search_defined(threshold: u8, f: FrameView) -> bool {
    seq_max(f.pixels) >= threshold ==> {
        &&& f.width > 0
        &&& f.height > 0
        &&& peak_index(f.pixels) % f.width + PEAK_WINDOW <= u32::MAX
        &&& peak_index(f.pixels) / f.width + PEAK_WINDOW <= u32::MAX
    }
}

proof fn lemma_seq_max_bound(s: Seq<u8>, j: int)
    requires
        0 <= j < s.len(),
    ensures
        s[j] <= seq_max(s),
    decreases s.len(),
{
    if j < s.len() - 1 {
        lemma_seq_max_bound(s.drop_last(), j);
    }
}

proof fn lemma_first_index(s: Seq<u8>, v: u8, k: int)
    requires
        0 <= k < s.len(),
        s[k] == v,
        forall|j: int| 0 <= j < k ==> s[j] != v,
    ensures
        first_index_of(s, v) == k,
    decreases k,
{
    if k > 0 {
        lemma_first_index(s.drop_first(), v, k - 1);
    }
}

/// The brightest pixel and its flat index.
fn find_peak(gray: &GrayFrame) -> (r: (u8, usize))
    requires
        gray.wf(),
    ensures
        r.0 == seq_max(gray.pixels@),
        r.1 == peak_index(gray.pixels@),
        gray.pixels@.len() > 0 ==> r.1 < gray.pixels@.len() && gray.pixels@[r.1 as int] == r.0,
{
    let n = gray.pixels.len();
    let ghost s = gray.pixels@;
    let mut peak_val: u8 = 0;
    let mut peak_i: usize = 0;
    let mut i: usize = 0;
    while i < n
        invariant
            n == s.len(),
            s == gray.pixels@,
            i <= n,
            peak_val == seq_max(s.take(i as int)),
            forall|j: int| 0 <= j < i ==> s[j] <= peak_val,
            peak_val > 0 ==> peak_i < i && s[peak_i as int] == peak_val && forall|j: int|
                0 <= j < peak_i ==> s[j] != peak_val,
            peak_val == 0 ==> peak_i == 0,
        decreases n - i,
    {
        let v = gray.pixels[i];
        proof {
            assert(s.take(i + 1).drop_last() =~= s.take(i as int));
        }
        if v > peak_val {
            peak_val = v;
            peak_i = i;
        }
        i += 1;
    }
    proof {
        assert(s.take(n as int) =~= s);
        if peak_val > 0 {
            lemma_first_index(s, peak_val, peak_i as int);
        } else if n > 0 {
            assert(s[0] <= peak_val);
        }
    }
    (peak_val, peak_i)
}

/// Running moments of the window scan.
struct Totals {
    wx: u64,
    wy: u64,
    weight: u64,
    count: u64,
    min_x: u32,
    max_x: u32,
    min_y: u32,
    max_y: u32,
}

impl Totals {
    spec fn stats(self) -> WindowStats {
        WindowStats {
            wx: self.wx as int,
            wy: self.wy as int,
            weight: self.weight as int,
            count: self.count as int,
            min_x: self.min_x as int,
            max_x: self.max_x as int,
            min_y: self.min_y as int,
            max_y: self.max_y as int,
        }
    }

    /// Sums stay within what `count` pixels can contribute (a weighted
    /// coordinate adds at most `u32::MAX * 255`), and a nonempty
    /// bounding box lies inside the scanned rectangle.
    spec fn bounded(self, xl: int, xh: int, yl: int, yh: int) -> bool {
        &&& self.wx <= self.count * 1_095_216_660_225
        &&& self.wy <= self.count * 1_095_216_660_225
        &&& self.weight <= self.count * 255
        &&& self.wx <= 0xffff_ffff * self.weight
        &&& self.wy <= 0xffff_ffff * self.weight
        &&& self.count > 0 ==> {
            &&& xl <= self.min_x <= self.max_x < xh
            &&& yl <= self.min_y <= self.max_y < yh
        }
        &&& self.count == 0 ==> self.stats() == empty_stats()
    }
}

proof fn lemma_weighted_coord(c: u32, v: u8)
    ensures
        c * v <= 1_095_216_660_225,
        c * v <= 0xffff_ffff * v,
{
    assert(c * v <= 0xffff_ffff * 255) by (nonlinear_arith)
        requires
            c <= 0xffff_ffffu32,
            v <= 255u8,
    ;
    assert(c * v <= 0xffff_ffff * v) by (nonlinear_arith)
        requires
            c <= 0xffff_ffffu32,
    ;
}

/// Counts the pixels of value at least `t` in columns `xl..xh`, rows
/// `yl..yh`.
fn scan_peak_window(f: &GrayFrame, xl: u32, xh: u32, yl: u32, yh: u32, t: u8) -> (r: Totals)
    requires
        f.wf(),
        xl <= xh <= f.width,
        yl <= yh <= f.height,
        xh - xl <= 2 * PEAK_WINDOW + 1,
        yh - yl <= 2 * PEAK_WINDOW + 1,
    ensures
        r.stats() == scan_window(f@, xl as int, xh as int, yl as int, yh as int, t as int),
        r.bounded(xl as int, xh as int, yl as int, yh as int),
        r.count <= 5329,
{
    let mut tot = Totals {
        wx: 0,
        wy: 0,
        weight: 0,
        count: 0,
        min_x: u32::MAX,
        max_x: 0,
        min_y: u32::MAX,
        max_y: 0,
    };
    let mut y: u32 = yl;
    while y < yh
        invariant
            f.wf(),
            xl <= xh <= f.width,
            yl <= y <= yh <= f.height,
            xh - xl <= 2 * PEAK_WINDOW + 1,
            yh - yl <= 2 * PEAK_WINDOW + 1,
            tot.stats() == scan_window(f@, xl as int, xh as int, yl as int, y as int, t as int),
            tot.bounded(xl as int, xh as int, yl as int, y as int),
            tot.count <= (y - yl) * 73,
        decreases yh - y,
    {
        let ghost row_start = tot.stats();
        let mut x: u32 = xl;
        while x < xh
            invariant
                f.wf(),
                xl <= x <= xh <= f.width,
                yl <= y < yh <= f.height,
                xh - xl <= 2 * PEAK_WINDOW + 1,
                yh - yl <= 2 * PEAK_WINDOW + 1,
                row_start == scan_window(f@, xl as int, xh as int, yl as int, y as int, t as int),
                tot.stats() == scan_row(f@, y as int, xl as int, x as int, t as int, row_start),
                tot.bounded(xl as int, xh as int, yl as int, y + 1),
                tot.count <= (y - yl) * 73 + (x - xl),
            decreases xh - x,
        {
            let v = f.get_pixel(x, y);
            if v >= t {
                proof {
                    lemma_weighted_coord(x, v);
                    lemma_weighted_coord(y, v);
                }
                tot.wx = tot.wx + x as u64 * v as u64;
                tot.wy = tot.wy + y as u64 * v as u64;
                tot.weight = tot.weight + v as u64;
                tot.count = tot.count + 1;
                if x < tot.min_x {
                    tot.min_x = x;
                }
                if x > tot.max_x {
                    tot.max_x = x;
                }
                if y < tot.min_y {
                    tot.min_y = y;
                }
                if y > tot.max_y {
                    tot.max_y = y;
                }
            }
            x = x + 1;
        }
        y = y + 1;
    }
    tot
}

proof fn lemma_scan_row_mono(f: FrameView, y: int, xl: int, xh: int, t: int, st: WindowStats)
    ensures
        scan_row(f, y, xl, xh, t, st).count >= st.count,
    decreases xh - xl,
{
    if xh > xl {
        lemma_scan_row_mono(f, y, xl, xh - 1, t, st);
    }
}

proof fn lemma_scan_row_hit(f: FrameView, y: int, xl: int, xh: int, t: int, st: WindowStats, px: int)
    requires
        xl <= px < xh,
        f.at(px, y) >= t,
        st.count >= 0,
    ensures
        scan_row(f, y, xl, xh, t, st).count >= 1,
    decreases xh - xl,
{
    if px == xh - 1 {
        lemma_scan_row_mono(f, y, xl, xh - 1, t, st);
    } else {
        lemma_scan_row_hit(f, y, xl, xh - 1, t, st, px);
    }
}

proof fn lemma_scan_window_nonneg(f: FrameView, xl: int, xh: int, yl: int, yh: int, t: int)
    ensures
        scan_window(f, xl, xh, yl, yh, t).count >= 0,
    decreases yh - yl,
{
    if yh > yl {
        lemma_scan_window_nonneg(f, xl, xh, yl, yh - 1, t);
        lemma_scan_row_mono(f, yh - 1, xl, xh, t, scan_window(f, xl, xh, yl, yh - 1, t));
    }
}

/// A window that contains a pixel reaching the threshold counts at least one
/// pixel.
proof fn lemma_scan_window_hit(
    f: FrameView,
    xl: int,
    xh: int,
    yl: int,
    yh: int,
    t: int,
    px: int,
    py: int,
)
    requires
        xl <= px < xh,
        yl <= py < yh,
        f.at(px, py) >= t,
    ensures
        scan_window(f, xl, xh, yl, yh, t).count >= 1,
    decreases yh - yl,
{
    lemma_scan_window_nonneg(f, xl, xh, yl, yh - 1, t);
    if py == yh - 1 {
        lemma_scan_row_hit(f, py, xl, xh, t, scan_window(f, xl, xh, yl, yh - 1, t), px);
    } else {
        lemma_scan_window_hit(f, xl, xh, yl, yh - 1, t, px, py);
        lemma_scan_row_mono(f, yh - 1, xl, xh, t, scan_window(f, xl, xh, yl, yh - 1, t));
    }
}

proof fn lemma_positive_area(w: int, h: int)
    requires
        w > 0,
        h > 0,
    ensures
        w * h > 0,
{
    assert(w * h > 0) by (nonlinear_arith)
        requires
            w > 0,
            h > 0,
    ;
}

proof fn lemma_clip_products(m2: u64, weight: u64, w: u32)
    requires
        m2 <= 76,
        weight <= 5329 * 255,
    ensures
        m2 * weight <= 76 * 5329 * 255,
        w * weight <= 0xffff_ffff * 5329 * 255,
{
    assert(m2 * weight <= 76 * (5329 * 255)) by (nonlinear_arith)
        requires
            m2 <= 76,
            weight <= 5329 * 255,
    ;
    assert(w * weight <= 0xffff_ffff * (5329 * 255)) by (nonlinear_arith)
        requires
            w <= 0xffff_ffffu32,
            weight <= 5329 * 255,
    ;
}

/// The peak detector: brightest pixel, thresholded moments of the window
/// around it, and the edge test.
#[verifier::rlimit(40)]
fn detect_peak_in(threshold: u8, min_pixels: usize, gray: &GrayFrame) -> (r: Result<
    BallDetection,
    DetectionError,
>)
    requires
        gray.wf(),
        peak_search_defined(threshold, gray@),
    ensures
        r == detect_peak_result(threshold, min_pixels, gray@),
        r matches Ok(d) ==> d.wf(),
{
    let width = gray.width;
    let height = gray.height;
    let (peak_val, peak_i) = find_peak(gray);
    if peak_val < threshold {
        return Err(DetectionError::NotFound);
    }
    proof {
        lemma_positive_area(width as int, height as int);
        lemma_index_split(peak_i as int, width as int, height as int);
    }
    let peak_x = (peak_i % width as usize) as u32;
    let peak_y = (peak_i / width as usize) as u32;
    let x_start = if peak_x >= PEAK_WINDOW {
        peak_x - PEAK_WINDOW
    } else {
        0
    };
    let y_start = if peak_y >= PEAK_WINDOW {
        peak_y - PEAK_WINDOW
    } else {
        0
    };
    let x_end = if peak_x + PEAK_WINDOW <= width - 1 {
        peak_x + PEAK_WINDOW
    } else {
        width - 1
    };
    let y_end = if peak_y + PEAK_WINDOW <= height - 1 {
        peak_y + PEAK_WINDOW
    } else {
        height - 1
    };
    let local_thresh = (peak_val as u16 / 3) as u8;
    let tot = scan_peak_window(gray, x_start, x_end + 1, y_start, y_end + 1, local_thresh);
    proof {
        assert(gray@.at(peak_x as int, peak_y as int) == peak_val);
        lemma_scan_window_hit(
            gray@,
            x_start as int,
            x_end + 1,
            y_start as int,
            y_end + 1,
            local_thresh as int,
            peak_x as int,
            peak_y as int,
        );
    }
    if tot.count < min_pixels as u64 {
        return Err(DetectionError::NotFound);
    }
    let x_span = tot.max_x - tot.min_x;
    let y_span = tot.max_y - tot.min_y;
    let span = if x_span >= y_span {
        x_span
    } else {
        y_span
    };
    let r2 = span as u64 + 4;
    let m2: u64 = if r2 >= 2 * EXPECTED_BALL_RADIUS_PX as u64 {
        r2
    } else {
        2 * EXPECTED_BALL_RADIUS_PX as u64
    };
    proof {
        lemma_clip_products(m2, tot.weight, width);
        lemma_clip_products(m2, tot.weight, height);
    }
    let edge = m2 * tot.weight;
    let clipped = tot.weight > 0 && (2 * tot.wx < edge || 2 * tot.wx + edge >= 2 * (width as u64
        * tot.weight) || 2 * tot.wy < edge || 2 * tot.wy + edge >= 2 * (height as u64
        * tot.weight));
    proof {
        let st = tot.stats();
        assert(st == peak_window_stats(gray@));
        assert(2 * (width as int) * st.weight == 2 * ((width as int) * st.weight)) by (nonlinear_arith);
        assert(2 * (height as int) * st.weight == 2 * ((height as int) * st.weight)) by (nonlinear_arith);
        assert(clipped == is_clipped(st, width as int, height as int));
    }
    if clipped {
        return Err(DetectionError::Clipped);
    }
    let d = BallDetection {
        weighted_x: tot.wx,
        weighted_y: tot.wy,
        total_weight: tot.weight,
        x_span,
        y_span,
    };
    assert(d.wf());
    Ok(d)
}


/// One side (`left` or right) of a stereo pair of images.
pub open spec fn side(p: (FrameView, FrameView), left: bool) -> FrameView {
    if left {
        p.0
    } else {
        p.1
    }
}

/// The darkest value that pixel `(x, y)` of one side takes over the first
/// `k` pairs.
pub open spec fn darkest(frames: Seq<(FrameView, FrameView)>, k: int, left: bool, x: int, y: int) -> u8
    decreases k,
{
    if k <= 1 {
        side(frames[0], left).at(x, y)
    } else {
        let m = darkest(frames, k - 1, left, x, y);
        let v = side(frames[k - 1], left).at(x, y);
        if v < m {
            v
        } else {
            m
        }
    }
}

/// The temporal-minimum background of one side over the first `k` pairs.
/// It has the size of that side of the first pair; the area as large as the
/// first left image takes the darkest value seen there, any pixel outside it
/// keeps the first pair's value.
pub open spec fn min_background(frames: Seq<(FrameView, FrameView)>, k: int, left: bool) -> FrameView {
    let first = side(frames[0], left);
    let w = frames[0].0.width;
    let h = frames[0].0.height;
    FrameView {
        width: first.width,
        height: first.height,
        pixels: Seq::new(
            first.pixels.len(),
            |i: int|
                if i % first.width < w && i / first.width < h {
                    darkest(frames, k, left, i % first.width, i / first.width)
                } else {
                    first.pixels[i]
                },
        ),
    }
}

/// The inputs on which the temporal minimum can be taken: every image is
/// well formed and, when there is more than one pair, every image past the
/// first left one covers the size of that first left image.
pub open spec fn min_background_defined(frames: Seq<(FrameView, FrameView)>) -> bool {
    &&& forall|k: int| 0 <= k < frames.len() ==> (#[trigger] frames[k]).0.wf() && frames[k].1.wf()
    &&& frames.len() > 1 ==> {
        &&& frames[0].1.covers(frames[0].0.width, frames[0].0.height)
        &&& forall|k: int|
            1 <= k < frames.len() ==> (#[trigger] frames[k]).0.covers(
                frames[0].0.width,
                frames[0].0.height,
            ) && frames[k].1.covers(frames[0].0.width, frames[0].0.height)
    }
}

/// Views of a slice of stereo pairs.
pub open spec fn pair_views(frames: Seq<(GrayFrame, GrayFrame)>) -> Seq<(FrameView, FrameView)> {
    frames.map_values(|p: (GrayFrame, GrayFrame)| (p.0@, p.1@))
}

/// `acc` with each pixel in the top-left `w` by `h` area lowered to the pixel
/// of `other` at the same coordinate when that one is darker.
fn darken_with(acc: &GrayFrame, other: &GrayFrame, w: u32, h: u32) -> (r: GrayFrame)
    requires
        acc.wf(),
        other.wf(),
        acc@.covers(w as int, h as int),
        other@.covers(w as int, h as int),
    ensures
        r.wf(),
        r.width == acc.width,
        r.height == acc.height,
        forall|i: int|
            0 <= i < r.pixels@.len() ==> #[trigger] r.pixels@[i] == if i % (acc.width as int) < w && i
                / (acc.width as int) < h {
                let v = other@.at(i % (acc.width as int), i / (acc.width as int));
                if v < acc.pixels@[i] {
                    v
                } else {
                    acc.pixels@[i]
                }
            } else {
                acc.pixels@[i]
            },
{
    let n = acc.pixels.len();
    let aw = acc.width;
    let mut out: Vec<u8> = Vec::with_capacity(n);
    let mut i: usize = 0;
    while i < n
        invariant
            acc.wf(),
            other.wf(),
            acc@.covers(w as int, h as int),
            other@.covers(w as int, h as int),
            n == acc.pixels@.len(),
            aw == acc.width,
            i <= n,
            out@.len() == i,
            forall|j: int|
                0 <= j < i ==> #[trigger] out@[j] == if j % (aw as int) < w && j / (aw as int) < h {
                    let v = other@.at(j % (aw as int), j / (aw as int));
                    if v < acc.pixels@[j] {
                        v
                    } else {
                        acc.pixels@[j]
                    }
                } else {
                    acc.pixels@[j]
                },
        decreases n - i,
    {
        proof {
            crate::frame::lemma_nonempty(i as int, aw as int, acc.height as int);
            lemma_index_split(i as int, aw as int, acc.height as int);
        }
        let x = (i % aw as usize) as u32;
        let y = (i / aw as usize) as u32;
        let a = acc.pixels[i];
        if x < w && y < h {
            let v = other.get_pixel(x, y);
            if v < a {
                out.push(v);
            } else {
                out.push(a);
            }
        } else {
            out.push(a);
        }
        i += 1;
    }
    GrayFrame { width: acc.width, height: acc.height, pixels: out }
}

/// Over a single pair, the temporal minimum is that pair's image.
proof fn lemma_min_background_start(frames: Seq<(FrameView, FrameView)>, left: bool)
    requires
        frames.len() > 0,
        side(frames[0], left).wf(),
    ensures
        min_background(frames, 1, left) == side(frames[0], left),
{
    let first = side(frames[0], left);
    let mb = min_background(frames, 1, left);
    assert forall|i: int| 0 <= i < first.pixels.len() implies mb.pixels[i] == first.pixels[i] by {
        crate::frame::lemma_nonempty(i, first.width, first.height);
        lemma_index_split(i, first.width, first.height);
    }
    assert(mb =~= first);
}

/// The temporal-minimum background is nowhere brighter than any of the
/// frames it was taken over, and takes the value of one of them: so within
/// the first left image's area, a frame minus that background is an exact,
/// unclamped difference.
pub proof fn lemma_min_background_below_frames(
    frames: Seq<(FrameView, FrameView)>,
    left: bool,
    k: int,
    x: int,
    y: int,
)
    requires
        frames.len() > 0,
        min_background_defined(frames),
        0 <= k < frames.len(),
        0 <= x < frames[0].0.width,
        0 <= y < frames[0].0.height,
        side(frames[0], left).covers(frames[0].0.width, frames[0].0.height),
    ensures
        min_background(frames, frames.len() as int, left).at(x, y) <= side(frames[k], left).at(x, y),
        exists|j: int|
            0 <= j < frames.len() && min_background(frames, frames.len() as int, left).at(x, y)
                == side(#[trigger] frames[j], left).at(x, y),
{
    let first = side(frames[0], left);
    assert(first.wf());
    lemma_pixel_index(x, y, first.width, first.height);
    lemma_darkest(frames, frames.len() as int, left, x, y, k);
}

proof fn lemma_darkest(frames: Seq<(FrameView, FrameView)>, n: int, left: bool, x: int, y: int, k: int)
    requires
        1 <= n <= frames.len(),
        0 <= k < n,
    ensures
        darkest(frames, n, left, x, y) <= side(frames[k], left).at(x, y),
        exists|j: int| 0 <= j < n && darkest(frames, n, left, x, y) == side(#[trigger] frames[j], left).at(x, y),
    decreases n,
{
    if n > 1 {
        if k < n - 1 {
            lemma_darkest(frames, n - 1, left, x, y, k);
        } else {
            lemma_darkest(frames, n - 1, left, x, y, 0);
        }
        let j = choose|j: int|
            0 <= j < n - 1 && darkest(frames, n - 1, left, x, y) == side(
                #[trigger] frames[j],
                left,
            ).at(x, y);
        let v = side(frames[n - 1], left).at(x, y);
        if v < darkest(frames, n - 1, left, x, y) {
            assert(darkest(frames, n, left, x, y) == side(frames[n - 1], left).at(x, y));
        } else {
            assert(darkest(frames, n, left, x, y) == side(frames[j], left).at(x, y));
        }
    } else {
        assert(darkest(frames, n, left, x, y) == side(frames[0], left).at(x, y));
    }
}

/// What an accepted detection guarantees: the peak reached the threshold,
/// at least `min_pixels` (and at least one) pixels were counted, and the
/// ball clears the frame edges by its margin.
pub proof fn lemma_detection_sound(threshold: u8, min_pixels: usize, f: FrameView, d: BallDetection)
    requires
        f.wf(),
        peak_search_defined(threshold, f),
        detect_peak_result(threshold, min_pixels, f) == Ok::<BallDetection, DetectionError>(d),
    ensures
        seq_max(f.pixels) >= threshold,
        peak_window_stats(f).count >= min_pixels,
        peak_window_stats(f).count >= 1,
        !is_clipped(peak_window_stats(f), f.width, f.height),
        d == detection_of(peak_window_stats(f)),
{
    let pv = seq_max(f.pixels);
    let pi = peak_index(f.pixels);
    lemma_positive_area(f.width, f.height);
    if pv > 0 {
        lemma_first_index_valid(f.pixels, pv);
    } else {
        lemma_seq_max_bound(f.pixels, 0);
    }
    lemma_index_split(pi, f.width, f.height);
    let px = pi % f.width;
    let py = pi / f.width;
    lemma_scan_window_hit(
        f,
        window_lo(px),
        window_hi(px, f.width) + 1,
        window_lo(py),
        window_hi(py, f.height) + 1,
        (pv / 3) as int,
        px,
        py,
    );
}

proof fn lemma_seq_max_attained(s: Seq<u8>)
    requires
        s.len() > 0,
    ensures
        s.contains(seq_max(s)),
    decreases s.len(),
{
    if s.len() > 1 {
        lemma_seq_max_attained(s.drop_last());
        if s.last() <= seq_max(s.drop_last()) {
            let j = choose|j: int| 0 <= j < s.len() - 1 && s.drop_last()[j] == seq_max(s.drop_last());
            assert(s[j] == seq_max(s));
        } else {
            assert(s[s.len() - 1] == seq_max(s));
        }
    } else {
        assert(s.drop_last().len() == 0);
        assert(seq_max(s.drop_last()) == 0);
        assert(s[0] == seq_max(s));
    }
}

proof fn lemma_first_index_of_valid(s: Seq<u8>, v: u8)
    requires
        s.contains(v),
    ensures
        0 <= first_index_of(s, v) < s.len(),
        s[first_index_of(s, v)] == v,
    decreases s.len(),
{
    if s[0] != v {
        let j = choose|j: int| 0 <= j < s.len() && s[j] == v;
        assert(s.drop_first()[j - 1] == v);
        lemma_first_index_of_valid(s.drop_first(), v);
    }
}

proof fn lemma_first_index_valid(s: Seq<u8>, pv: u8)
    requires
        pv == seq_max(s),
        pv > 0,
    ensures
        0 <= peak_index(s) < s.len(),
        s[peak_index(s)] == pv,
{
    if s.len() == 0 {
        assert(seq_max(s) == 0);
    }
    lemma_seq_max_attained(s);
    lemma_first_index_of_valid(s, pv);
}

/// A frame that equals its background shows no ball: with a positive
/// threshold the detector answers `NotFound`.
pub proof fn lemma_background_hides_static_scene(threshold: u8, min_pixels: usize, f: FrameView)
    requires
        f.wf(),
        threshold > 0,
    ensures
        detect_peak_result(threshold, min_pixels, background_diff(f, f)) == Err::<
            BallDetection,
            DetectionError,
        >(DetectionError::NotFound),
{
    crate::frame::lemma_self_background_is_black(f);
    let d = background_diff(f, f).pixels;
    lemma_seq_max_zero(d);
}

proof fn lemma_seq_max_zero(s: Seq<u8>)
    requires
        forall|i: int| 0 <= i < s.len() ==> s[i] == 0,
    ensures
        seq_max(s) == 0,
    decreases s.len(),
{
    if s.len() > 0 {
        lemma_seq_max_zero(s.drop_last());
    }
}

/// Background images of a stereo pair.
struct BackgroundModel {
    left: GrayFrame,
    right: GrayFrame,
}

/// Finds the ball as the bright blob around the brightest pixel, optionally
/// after subtracting a per-camera background.
pub struct BallDetector {
    diff_threshold: u8,
    min_pixels: usize,
    background: Option<BackgroundModel>,
}

impl BallDetector {
    #[verifier::type_invariant]
    spec fn background_well_formed(self) -> bool {
        self.background matches Some(bg) ==> bg.left.wf() && bg.right.wf()
    }

    /// The brightness the peak must reach.
    pub closed spec fn threshold(self) -> u8 {
        self.diff_threshold
    }

    /// The number of bright pixels a ball must have.
    pub closed spec fn min_pixel_count(self) -> usize {
        self.min_pixels
    }

    /// The left and right background images, when set.
    pub closed spec fn background(self) -> Option<(FrameView, FrameView)> {
        match self.background {
            Some(bg) => Some((bg.left@, bg.right@)),
            None => None,
        }
    }

    /// The image searched for camera `left` (or the right one): the
    /// background difference when a background is set, the image itself
    /// otherwise.
    pub open spec fn search_view(self, gray: FrameView, left: bool) -> FrameView {
        match self.background() {
            Some(bg) => background_diff(gray, side(bg, left)),
            None => gray,
        }
    }

    /// The background (when set) covers `gray` for camera `left`.
    pub open spec fn background_covers(self, gray: FrameView, left: bool) -> bool {
        self.background() matches Some(bg) ==> side(bg, left).covers(gray.width, gray.height)
    }

    /// A detector with the given peak threshold and minimum blob size, and no
    /// background.
    pub fn new(diff_threshold: u8, min_pixels: usize) -> (r: BallDetector)
        ensures
            r.threshold() == diff_threshold,
            r.min_pixel_count() == min_pixels,
            r.background() is None,
    {
        BallDetector { diff_threshold, min_pixels, background: None }
    }

    /// Stores copies of the two background images.
    pub fn set_background(&mut self, left: &GrayFrame, right: &GrayFrame)
        requires
            left.wf(),
            right.wf(),
        ensures
            final(self).background() == Some((left@, right@)),
            final(self).threshold() == old(self).threshold(),
            final(self).min_pixel_count() == old(self).min_pixel_count(),
    {
        self.background = Some(BackgroundModel { left: left.duplicate(), right: right.duplicate() });
    }

    /// Sets the background of each camera to the per-pixel minimum over a
    /// sequence of stereo pairs, so that a moving bright ball leaves no trace
    /// in it. An empty sequence leaves the detector unchanged.
    pub fn set_background_from_min(&mut self, frames: &[(GrayFrame, GrayFrame)])
        requires
            min_background_defined(pair_views(frames@)),
        ensures
            frames@.len() == 0 ==> final(self).background() == old(self).background(),
            frames@.len() > 0 ==> final(self).background() == Some(
                (
                    min_background(pair_views(frames@), frames@.len() as int, true),
                    min_background(pair_views(frames@), frames@.len() as int, false),
                ),
            ),
            final(self).threshold() == old(self).threshold(),
            final(self).min_pixel_count() == old(self).min_pixel_count(),
    {
        if frames.len() == 0 {
            return ;
        }
        let ghost fv = pair_views(frames@);
        let w = frames[0].0.width;
        let h = frames[0].0.height;
        proof {
            assert(fv[0].0.wf() && fv[0].1.wf());
        }
        let mut left_bg = frames[0].0.duplicate();
        let mut right_bg = frames[0].1.duplicate();
        proof {
            lemma_min_background_start(fv, true);
            lemma_min_background_start(fv, false);
        }
        let mut k: usize = 1;
        while k < frames.len()
            invariant
                fv == pair_views(frames@),
                min_background_defined(fv),
                1 <= k <= frames@.len(),
                w == fv[0].0.width,
                h == fv[0].0.height,
                left_bg.wf(),
                right_bg.wf(),
                left_bg@ == min_background(fv, k as int, true),
                right_bg@ == min_background(fv, k as int, false),
            decreases frames@.len() - k,
        {
            proof {
                assert(fv[k as int].0.wf() && fv[k as int].1.wf());
            }
            let nl = darken_with(&left_bg, &frames[k].0, w, h);
            let nr = darken_with(&right_bg, &frames[k].1, w, h);
            proof {
                assert(nl@ =~= min_background(fv, k + 1, true));
                assert(nr@ =~= min_background(fv, k + 1, false));
            }
            left_bg = nl;
            right_bg = nr;
            k += 1;
        }
        self.background = Some(BackgroundModel { left: left_bg, right: right_bg });
    }

    /// Whether a background has been set.
    pub fn has_background(&self) -> (r: bool)
        ensures
            r == self.background() is Some,
    {
        self.background.is_some()
    }

    /// Detects the ball in `gray` for camera `is_left` (or the right one),
    /// after subtracting that camera's background when one is set.
    pub fn detect_with_background(&self, gray: &GrayFrame, is_left: bool) -> (r: Result<
        BallDetection,
        DetectionError,
    >)
        requires
            gray.wf(),
            self.background_covers(gray@, is_left),
            peak_search_defined(self.threshold(), self.search_view(gray@, is_left)),
        ensures
            r == detect_peak_result(
                self.threshold(),
                self.min_pixel_count(),
                self.search_view(gray@, is_left),
            ),
            r matches Ok(d) ==> d.wf(),
    {
        proof {
            use_type_invariant(self);
        }
        match &self.background {
            Some(bg) => {
                let b = if is_left {
                    &bg.left
                } else {
                    &bg.right
                };
                let diff = subtract_background(gray, b);
                detect_peak_in(self.diff_threshold, self.min_pixels, &diff)
            },
            None => self.detect(gray),
        }
    }

    /// The background difference for camera `is_left`, or `None` when no
    /// background is set.
    pub fn get_diff_image(&self, gray: &GrayFrame, is_left: bool) -> (r: Option<GrayFrame>)
        requires
            gray.wf(),
            self.background_covers(gray@, is_left),
        ensures
            self.background() is None ==> r is None,
            self.background() is Some ==> (r matches Some(d) && d.wf() && d@ == self.search_view(
                gray@,
                is_left,
            )),
    {
        proof {
            use_type_invariant(self);
        }
        match &self.background {
            Some(bg) => {
                let b = if is_left {
                    &bg.left
                } else {
                    &bg.right
                };
                Some(subtract_background(gray, b))
            },
            None => None,
        }
    }

    /// Detects the ball in `gray` without background subtraction.
    pub fn detect(&self, gray: &GrayFrame) -> (r: Result<BallDetection, DetectionError>)
        requires
            gray.wf(),
            peak_search_defined(self.threshold(), gray@),
        ensures
            r == detect_peak_result(self.threshold(), self.min_pixel_count(), gray@),
            r matches Ok(d) ==> d.wf(),
    {
        detect_peak_in(self.diff_threshold, self.min_pixels, gray)
    }
}

impl Default for BallDetector {
    /// Threshold 30, at least 10 pixels, no background.
    fn default() -> (r: BallDetector)
        ensures
            r.threshold() == 30,
            r.min_pixel_count() == 10,
            r.background() is None,
    {
        BallDetector::new(30, 10)
    }
}

/// What window statistics that counted at most `n` pixels satisfy: the
/// weight is at most 255 per pixel, nothing counted leaves the statistics
/// empty, and the weighted coordinates lie between the bounding box's
/// edges times the weight.
pub open spec fn stats_inv(st: WindowStats, n: int) -> bool {
    &&& 0 <= st.count <= n
    &&& 0 <= st.weight <= 255 * st.count
    &&& st.count == 0 ==> st == empty_stats()
    &&& st.count > 0 ==> 0 <= st.min_x <= st.max_x <= u32::MAX && 0 <= st.min_y <= st.max_y <= u32::MAX
    &&& st.min_x * st.weight <= st.wx <= st.max_x * st.weight
    &&& st.min_y * st.weight <= st.wy <= st.max_y * st.weight
}

/// Pixel `(x, y)` lies in the bounding box of the counted pixels.
pub open spec fn in_box(st: WindowStats, x: int, y: int) -> bool {
    st.min_x <= x <= st.max_x && st.min_y <= y <= st.max_y
}

/// `b` counts at least what `a` did, in a bounding box at least as large.
pub open spec fn box_grows(a: WindowStats, b: WindowStats) -> bool {
    &&& b.count >= a.count
    &&& a.count > 0 ==> b.min_x <= a.min_x && b.max_x >= a.max_x && b.min_y <= a.min_y && b.max_y >= a.max_y
}

proof fn lemma_add_pixel_box(st: WindowStats, x: int, y: int, v: int, t: int, n: int)
    requires
        stats_inv(st, n),
        0 <= x <= u32::MAX,
        0 <= y <= u32::MAX,
        0 <= v <= 255,
    ensures
        stats_inv(add_pixel(st, x, y, v, t), n + 1),
        box_grows(st, add_pixel(st, x, y, v, t)),
        v >= t ==> in_box(add_pixel(st, x, y, v, t), x, y),
{
    if v >= t {
        let r = add_pixel(st, x, y, v, t);
        if st.count == 0 {
            assert(r.wx == x * v);
            assert(r.wy == y * v);
        } else {
            assert(r.min_x * st.weight <= st.min_x * st.weight) by (nonlinear_arith)
                requires
                    r.min_x <= st.min_x,
                    st.weight >= 0,
            ;
            assert(r.min_x * v <= x * v) by (nonlinear_arith)
                requires
                    r.min_x <= x,
                    v >= 0,
            ;
            assert(r.max_x * st.weight >= st.max_x * st.weight) by (nonlinear_arith)
                requires
                    r.max_x >= st.max_x,
                    st.weight >= 0,
            ;
            assert(r.max_x * v >= x * v) by (nonlinear_arith)
                requires
                    r.max_x >= x,
                    v >= 0,
            ;
            assert(r.min_y * st.weight <= st.min_y * st.weight) by (nonlinear_arith)
                requires
                    r.min_y <= st.min_y,
                    st.weight >= 0,
            ;
            assert(r.min_y * v <= y * v) by (nonlinear_arith)
                requires
                    r.min_y <= y,
                    v >= 0,
            ;
            assert(r.max_y * st.weight >= st.max_y * st.weight) by (nonlinear_arith)
                requires
                    r.max_y >= st.max_y,
                    st.weight >= 0,
            ;
            assert(r.max_y * v >= y * v) by (nonlinear_arith)
                requires
                    r.max_y >= y,
                    v >= 0,
            ;
            assert(r.min_x * r.weight == r.min_x * st.weight + r.min_x * v) by (nonlinear_arith)
                requires
                    r.weight == st.weight + v,
            ;
            assert(r.max_x * r.weight == r.max_x * st.weight + r.max_x * v) by (nonlinear_arith)
                requires
                    r.weight == st.weight + v,
            ;
            assert(r.min_y * r.weight == r.min_y * st.weight + r.min_y * v) by (nonlinear_arith)
                requires
                    r.weight == st.weight + v,
            ;
            assert(r.max_y * r.weight == r.max_y * st.weight + r.max_y * v) by (nonlinear_arith)
                requires
                    r.weight == st.weight + v,
            ;
        }
    }
}

proof fn lemma_scan_row_box(f: FrameView, y: int, xl: int, xh: int, t: int, st: WindowStats, n: int)
    requires
        f.wf(),
        0 <= xl <= xh <= f.width,
        0 <= y < f.height,
        stats_inv(st, n),
    ensures
        stats_inv(scan_row(f, y, xl, xh, t, st), n + (xh - xl)),
        box_grows(st, scan_row(f, y, xl, xh, t, st)),
        forall|x: int| xl <= x < xh && #[trigger] f.at(x, y) >= t ==> in_box(scan_row(f, y, xl, xh, t, st), x, y),
    decreases xh - xl,
{
    if xh > xl {
        let prev = scan_row(f, y, xl, xh - 1, t, st);
        lemma_scan_row_box(f, y, xl, xh - 1, t, st, n);
        let v = f.at(xh - 1, y) as int;
        lemma_add_pixel_box(prev, xh - 1, y, v, t, n + (xh - 1 - xl));
    }
}

proof fn lemma_scan_window_box(f: FrameView, xl: int, xh: int, yl: int, yh: int, t: int)
    requires
        f.wf(),
        0 <= xl <= xh <= f.width,
        0 <= yl <= yh <= f.height,
    ensures
        stats_inv(scan_window(f, xl, xh, yl, yh, t), (yh - yl) * (xh - xl)),
        forall|x: int, y: int|
            xl <= x < xh && yl <= y < yh && #[trigger] f.at(x, y) >= t ==> in_box(
                scan_window(f, xl, xh, yl, yh, t),
                x,
                y,
            ),
    decreases yh - yl,
{
    if yh > yl {
        let prev = scan_window(f, xl, xh, yl, yh - 1, t);
        lemma_scan_window_box(f, xl, xh, yl, yh - 1, t);
        lemma_scan_row_box(f, yh - 1, xl, xh, t, prev, (yh - 1 - yl) * (xh - xl));
        assert((yh - 1 - yl) * (xh - xl) + (xh - xl) == (yh - yl) * (xh - xl)) by (nonlinear_arith);
    } else {
        assert((yh - yl) * (xh - xl) == 0) by (nonlinear_arith)
            requires
                yh == yl,
        ;
    }
}

/// The ball reported by the peak detector accounts for every pixel around
/// the brightest one: each pixel within `PEAK_WINDOW` pixels of the
/// brightest pixel on any side, left and above included, whose value is at
/// least a third of the peak's, lies within the reported spans of the
/// reported centre (`weighted / total_weight`, stated on products).
pub proof fn lemma_detection_spans_peak_neighbourhood(
    threshold: u8,
    min_pixels: usize,
    f: FrameView,
    d: BallDetection,
)
    requires
        f.wf(),
        detect_peak_result(threshold, min_pixels, f) == Ok::<BallDetection, DetectionError>(d),
    ensures
        forall|x: int, y: int|
            #![trigger f.at(x, y)]
            f.contains(x, y) && peak_index(f.pixels) % f.width - PEAK_WINDOW <= x <= peak_index(f.pixels)
                % f.width + PEAK_WINDOW && peak_index(f.pixels) / f.width - PEAK_WINDOW <= y
                <= peak_index(f.pixels) / f.width + PEAK_WINDOW && f.at(x, y) >= seq_max(f.pixels) / 3
                ==> {
                &&& x * d.total_weight <= d.weighted_x + d.x_span * d.total_weight
                &&& d.weighted_x <= x * d.total_weight + d.x_span * d.total_weight
                &&& y * d.total_weight <= d.weighted_y + d.y_span * d.total_weight
                &&& d.weighted_y <= y * d.total_weight + d.y_span * d.total_weight
            },
{
    if f.pixels.len() > 0 {
        let pv = seq_max(f.pixels);
        let pi = peak_index(f.pixels);
        crate::frame::lemma_nonempty(0, f.width, f.height);
        if pv > 0 {
            lemma_first_index_valid(f.pixels, pv);
        }
        lemma_index_split(pi, f.width, f.height);
        let px = pi % f.width;
        let py = pi / f.width;
        let xl = window_lo(px);
        let xh = window_hi(px, f.width) + 1;
        let yl = window_lo(py);
        let yh = window_hi(py, f.height) + 1;
        let t = (pv / 3) as int;
        lemma_scan_window_box(f, xl, xh, yl, yh, t);
        let st = peak_window_stats(f);
        assert(st == scan_window(f, xl, xh, yl, yh, t));
        assert((yh - yl) * (xh - xl) <= 73 * 73) by (nonlinear_arith)
            requires
                0 <= yh - yl <= 73,
                0 <= xh - xl <= 73,
        ;
        assert(st.max_x * st.weight <= 0xffff_ffff * (255 * 5329)) by (nonlinear_arith)
            requires
                0 <= st.max_x <= 0xffff_ffff,
                0 <= st.weight <= 255 * 5329,
        ;
        assert(st.max_y * st.weight <= 0xffff_ffff * (255 * 5329)) by (nonlinear_arith)
            requires
                0 <= st.max_y <= 0xffff_ffff,
                0 <= st.weight <= 255 * 5329,
        ;
        assert(d == detection_of(st));
        assert forall|x: int, y: int|
            #![trigger f.at(x, y)]
            f.contains(x, y) && px - PEAK_WINDOW <= x <= px + PEAK_WINDOW && py - PEAK_WINDOW <= y <= py
                + PEAK_WINDOW && f.at(x, y) >= pv / 3 implies {
            &&& x * d.total_weight <= d.weighted_x + d.x_span * d.total_weight
            &&& d.weighted_x <= x * d.total_weight + d.x_span * d.total_weight
            &&& y * d.total_weight <= d.weighted_y + d.y_span * d.total_weight
            &&& d.weighted_y <= y * d.total_weight + d.y_span * d.total_weight
        } by {
            assert(xl <= x < xh && yl <= y < yh);
            assert(in_box(st, x, y));
            assert(st.count > 0);
            let w = st.weight;
            assert(d.total_weight == w && d.weighted_x == st.wx && d.weighted_y == st.wy);
            assert(d.x_span == st.max_x - st.min_x && d.y_span == st.max_y - st.min_y);
            assert(x * w <= st.wx + (st.max_x - st.min_x) * w && st.wx <= x * w + (st.max_x - st.min_x)
                * w) by (nonlinear_arith)
                requires
                    st.min_x <= x <= st.max_x,
                    st.min_x * w <= st.wx <= st.max_x * w,
                    w >= 0,
            ;
            assert(y * w <= st.wy + (st.max_y - st.min_y) * w && st.wy <= y * w + (st.max_y - st.min_y)
                * w) by (nonlinear_arith)
                requires
                    st.min_y <= y <= st.max_y,
                    st.min_y * w <= st.wy <= st.max_y * w,
                    w >= 0,
            ;
        }
    } else {
        assert forall|x: int, y: int| #![trigger f.at(x, y)] !f.contains(x, y) by {
            if f.contains(x, y) {
                crate::frame::lemma_pixel_index(x, y, f.width, f.height);
            }
        }
    }
}

/// Pixel `(x, y)` is counted around the brightest pixel: it lies within
/// `PEAK_WINDOW` pixels of it on every axis, on either side, and its value
/// is at least a third of the peak value.
pub open spec fn near_peak(f: FrameView, x: int, y: int) -> bool {
    let pi = peak_index(f.pixels);
    &&& pi % f.width - PEAK_WINDOW <= x <= pi % f.width + PEAK_WINDOW
    &&& pi / f.width - PEAK_WINDOW <= y <= pi / f.width + PEAK_WINDOW
    &&& f.at(x, y) >= seq_max(f.pixels) / 3
}

/// What pixel value `v` adds: its value, or 1 when `counting`.
pub open spec fn contribution(v: int, counting: bool) -> int {
    if counting {
        1
    } else {
        v
    }
}

/// The value (or, when `counting`, the number) of the pixels near the peak
/// among the first `n` of row `y`.
pub open spec fn near_row_total(f: FrameView, y: int, n: int, counting: bool) -> int
    decreases n,
{
    if n <= 0 {
        0
    } else {
        near_row_total(f, y, n - 1, counting) + if near_peak(f, n - 1, y) {
            contribution(f.at(n - 1, y) as int, counting)
        } else {
            0
        }
    }
}

/// The value (or number) of the pixels near the peak in the first `m` rows.
pub open spec fn near_total(f: FrameView, m: int, counting: bool) -> int
    decreases m,
{
    if m <= 0 {
        0
    } else {
        near_total(f, m - 1, counting) + near_row_total(f, m - 1, f.width, counting)
    }
}

/// What the pixels of row `y`, columns `xl..xh`, that reach `t` add.
spec fn window_row_total(f: FrameView, y: int, xl: int, xh: int, t: int, counting: bool) -> int
    decreases xh - xl,
{
    if xh <= xl {
        0
    } else {
        window_row_total(f, y, xl, xh - 1, t, counting) + if f.at(xh - 1, y) >= t {
            contribution(f.at(xh - 1, y) as int, counting)
        } else {
            0
        }
    }
}

/// What the pixels of rows `yl..yh`, columns `xl..xh`, that reach `t` add.
spec fn window_total(f: FrameView, xl: int, xh: int, yl: int, yh: int, t: int, counting: bool) -> int
    decreases yh - yl,
{
    if yh <= yl {
        0
    } else {
        window_total(f, xl, xh, yl, yh - 1, t, counting) + window_row_total(f, yh - 1, xl, xh, t, counting)
    }
}

proof fn lemma_scan_row_totals(f: FrameView, y: int, xl: int, xh: int, t: int, st: WindowStats)
    ensures
        scan_row(f, y, xl, xh, t, st).weight == st.weight + window_row_total(f, y, xl, xh, t, false),
        scan_row(f, y, xl, xh, t, st).count == st.count + window_row_total(f, y, xl, xh, t, true),
    decreases xh - xl,
{
    if xh > xl {
        lemma_scan_row_totals(f, y, xl, xh - 1, t, st);
    }
}

proof fn lemma_scan_window_totals(f: FrameView, xl: int, xh: int, yl: int, yh: int, t: int)
    ensures
        scan_window(f, xl, xh, yl, yh, t).weight == window_total(f, xl, xh, yl, yh, t, false),
        scan_window(f, xl, xh, yl, yh, t).count == window_total(f, xl, xh, yl, yh, t, true),
    decreases yh - yl,
{
    if yh > yl {
        lemma_scan_window_totals(f, xl, xh, yl, yh - 1, t);
        lemma_scan_row_totals(f, yh - 1, xl, xh, t, scan_window(f, xl, xh, yl, yh - 1, t));
    }
}

/// Inside the window's rows, the pixels near the peak among the first `n`
/// of a row are those of the window's columns below `n` that reach the
/// threshold.
proof fn lemma_near_row_in_window(
    f: FrameView,
    y: int,
    n: int,
    xl: int,
    xh: int,
    t: int,
    counting: bool,
)
    requires
        f.wf(),
        f.width > 0,
        0 <= n <= f.width,
        xl == window_lo(peak_index(f.pixels) % f.width),
        xh == window_hi(peak_index(f.pixels) % f.width, f.width) + 1,
        t == seq_max(f.pixels) / 3,
        window_lo(peak_index(f.pixels) / f.width) <= y <= peak_index(f.pixels) / f.width + PEAK_WINDOW,
        peak_index(f.pixels) / f.width - PEAK_WINDOW <= y,
        0 <= peak_index(f.pixels) % f.width < f.width,
    ensures
        near_row_total(f, y, n, counting) == window_row_total(
            f,
            y,
            xl,
            if n < xl {
                xl
            } else if n > xh {
                xh
            } else {
                n
            },
            t,
            counting,
        ),
    decreases n,
{
    if n > 0 {
        lemma_near_row_in_window(f, y, n - 1, xl, xh, t, counting);
    }
}

proof fn lemma_near_row_outside(f: FrameView, y: int, n: int, counting: bool)
    requires
        !(peak_index(f.pixels) / f.width - PEAK_WINDOW <= y <= peak_index(f.pixels) / f.width
            + PEAK_WINDOW),
    ensures
        near_row_total(f, y, n, counting) == 0,
    decreases n,
{
    if n > 0 {
        lemma_near_row_outside(f, y, n - 1, counting);
    }
}

proof fn lemma_near_total_window(
    f: FrameView,
    m: int,
    xl: int,
    xh: int,
    yl: int,
    yh: int,
    t: int,
    counting: bool,
)
    requires
        f.wf(),
        f.width > 0,
        0 <= m <= f.height,
        xl == window_lo(peak_index(f.pixels) % f.width),
        xh == window_hi(peak_index(f.pixels) % f.width, f.width) + 1,
        yl == window_lo(peak_index(f.pixels) / f.width),
        yh == window_hi(peak_index(f.pixels) / f.width, f.height) + 1,
        t == seq_max(f.pixels) / 3,
        0 <= peak_index(f.pixels) % f.width < f.width,
        0 <= peak_index(f.pixels) / f.width < f.height,
    ensures
        near_total(f, m, counting) == window_total(
            f,
            xl,
            xh,
            yl,
            if m < yl {
                yl
            } else if m > yh {
                yh
            } else {
                m
            },
            t,
            counting,
        ),
    decreases m,
{
    if m > 0 {
        let y = m - 1;
        lemma_near_total_window(f, m - 1, xl, xh, yl, yh, t, counting);
        if yl <= y < yh {
            lemma_near_row_in_window(f, y, f.width, xl, xh, t, counting);
        } else {
            lemma_near_row_outside(f, y, f.width, counting);
        }
    }
}

/// The ball reported by the peak detector is made of exactly the pixels
/// near the brightest one: its total weight is the sum, and its pixel
/// count (at least `min_pixels`) the number, of all pixels of the image
/// that lie within `PEAK_WINDOW` pixels of the brightest pixel on every
/// axis, on either side, and reach a third of its value.
pub proof fn lemma_detection_weighs_peak_neighbourhood(
    threshold: u8,
    min_pixels: usize,
    f: FrameView,
    d: BallDetection,
)
    requires
        f.wf(),
        detect_peak_result(threshold, min_pixels, f) == Ok::<BallDetection, DetectionError>(d),
    ensures
        f.pixels.len() > 0 ==> d.total_weight == near_total(f, f.height, false),
        f.pixels.len() > 0 ==> near_total(f, f.height, true) >= min_pixels,
{
    if f.pixels.len() > 0 {
        let pv = seq_max(f.pixels);
        let pi = peak_index(f.pixels);
        crate::frame::lemma_nonempty(0, f.width, f.height);
        if pv > 0 {
            lemma_first_index_valid(f.pixels, pv);
        }
        lemma_index_split(pi, f.width, f.height);
        let px = pi % f.width;
        let py = pi / f.width;
        let xl = window_lo(px);
        let xh = window_hi(px, f.width) + 1;
        let yl = window_lo(py);
        let yh = window_hi(py, f.height) + 1;
        let t = (pv / 3) as int;
        lemma_scan_window_box(f, xl, xh, yl, yh, t);
        lemma_scan_window_totals(f, xl, xh, yl, yh, t);
        lemma_near_total_window(f, f.height, xl, xh, yl, yh, t, false);
        lemma_near_total_window(f, f.height, xl, xh, yl, yh, t, true);
        let st = peak_window_stats(f);
        assert(st == scan_window(f, xl, xh, yl, yh, t));
        assert((yh - yl) * (xh - xl) <= 73 * 73) by (nonlinear_arith)
            requires
                0 <= yh - yl <= 73,
                0 <= xh - xl <= 73,
        ;
        assert(d == detection_of(st));
    }
}

} // verus!
