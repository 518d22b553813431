use vstd::prelude::*;
use crate::ball_detector::seq_max;
use crate::frame::{FrameView, GrayFrame, inverted, invert_image};
use std::collections::HashMap;

verus! {

/// Inner corners of the calibration board along its long side.
pub const EXPECTED_COLS: usize = 9;

/// Inner corners of the calibration board along its short side.
pub const EXPECTED_ROWS: usize = 6;

/// Inner corners of the whole board.
pub const BOARD_CORNERS: usize = EXPECTED_COLS * EXPECTED_ROWS;

/// Corners that suffice to fit the board's grid: all but 8.
pub const MIN_BOARD_CORNERS: usize = BOARD_CORNERS - 8;

/// Which corners the board's grid is fitted to.
#[derive(Debug, Clone, Copy, PartialEq, Eq, Structural)]
pub enum BoardCorners {
    /// The corners that scored as checker corners.
    Scored,
    /// All merged candidates, when too few scored but enough were found.
    Merged,
    /// Too few corners either way: the board is not found.
    TooFew,
}

/// The corners to fit the grid to, given how many scored as checker
/// corners and how many merged candidates there are: the scored ones when
/// there are at least `MIN_BOARD_CORNERS`, else all merged candidates when
/// there are that many, else none.
pub fn choose_board_corners(scored: usize, merged: usize) -> (r: BoardCorners)
    ensures
        scored >= MIN_BOARD_CORNERS ==> r == BoardCorners::Scored,
        scored < MIN_BOARD_CORNERS && merged >= MIN_BOARD_CORNERS ==> r == BoardCorners::Merged,
        scored < MIN_BOARD_CORNERS && merged < MIN_BOARD_CORNERS ==> r == BoardCorners::TooFew,
{
    if scored >= MIN_BOARD_CORNERS {
        BoardCorners::Scored
    } else if merged >= MIN_BOARD_CORNERS {
        BoardCorners::Merged
    } else {
        BoardCorners::TooFew
    }
}

/// FAST thresholds tried, from most to least sensitive.
pub open spec fn fast_thresholds() -> Seq<u8> {
    seq![5u8, 10u8, 20u8, 30u8]
}

/// The corners that imageproc's FAST-9 detector reports on `image` at
/// `threshold`, as `(x, y)` in the order it reports them.
pub uninterp spec fn fast9_corners(image: FrameView, threshold: u8) -> Seq<(u32, u32)>;

/// The pixels that image's `resize` with the triangle filter produces when
/// `image` is resampled to `new_width` by `new_height`.
pub uninterp spec fn triangle_resized(image: FrameView, new_width: u32, new_height: u32) -> Seq<u8>;

/// Pixel `(px, py)` lies on the plus-shaped cross of arm length 1 centred
/// at `(x, y)`.
pub open spec fn on_cross(px: int, py: int, x: int, y: int) -> bool {
    (px == x && -1 <= py - y <= 1) || (py == y && -1 <= px - x <= 1)
}

/// `image` with a white plus-shaped cross of arm length 1 drawn at the
/// signed coordinates `(x, y)`; the parts of the cross outside the image
/// are dropped. The sides are compared as `i32`, so when one exceeds
/// `i32::MAX` it reads as negative and nothing is drawn.
pub open spec fn cross_drawn(image: FrameView, x: int, y: int) -> FrameView {
    FrameView {
        width: image.width,
        height: image.height,
        pixels: Seq::new(
            image.pixels.len(),
            |i: int|
                if image.width <= i32::MAX && image.height <= i32::MAX && on_cross(
                    i % image.width,
                    i / image.width,
                    x,
                    y,
                ) {
                    255u8
                } else {
                    image.pixels[i]
                },
        ),
    }
}

/// Some row of the cross centred on the signed row `y` lies inside an
/// image of `height` rows, the height taken as `i32`; only then are the
/// cross's columns computed.
pub open spec fn cross_rows_inside(height: u32, y: int) -> bool {
    let h = as_signed(height);
    h > 0 && y + 1 >= 0 && y - 1 < h
}

/// Drawing a cross at `(x, y)` (taken as `i32`) on an image of `height`
/// rows stays within `i32`: the row above and below `y` exist, and so do
/// the columns beside `x` wherever a row of the cross lies inside.
pub open spec fn cross_defined(height: u32, x: u32, y: u32) -> bool {
    &&& i32::MIN < as_signed(y) < i32::MAX
    &&& cross_rows_inside(height, as_signed(y)) ==> i32::MIN < as_signed(x) < i32::MAX
}

/// FAST-9 corners of `image` (imageproc's `corners_fast9`), as coordinates.
/// imageproc reports only pixels at least 3 from every border, row by row.
#[verifier::external_body]
fn collect_fast_corners(image: &GrayFrame, threshold: u8) -> (r: Vec<(u32, u32)>)
    requires
        image.wf(),
    ensures
        r@ == fast9_corners(image@, threshold),
        forall|i: int|
            0 <= i < r@.len() ==> 3 <= (#[trigger] r@[i]).0 && r@[i].0 + 3 < image.width && 3
                <= r@[i].1 && r@[i].1 + 3 < image.height,
{
    let img = image::GrayImage::from_raw(image.width, image.height, image.pixels.clone()).unwrap();
    imageproc::corners::corners_fast9(&img, threshold).iter().map(|c| (c.x, c.y)).collect()
}

/// `image` resampled to `new_width` by `new_height` with the triangle
/// filter (image's `imageops::resize`).
#[verifier::external_body]
fn resize_triangle(image: &GrayFrame, new_width: u32, new_height: u32) -> (r: GrayFrame)
    requires
        image.wf(),
        new_width * new_height <= isize::MAX,
        image.width * new_height * 16 <= isize::MAX,
    ensures
        r.wf(),
        r.width == new_width,
        r.height == new_height,
        r.pixels@ == triangle_resized(image@, new_width, new_height),
{
    let img = image::GrayImage::from_raw(image.width, image.height, image.pixels.clone()).unwrap();
    let out = image::imageops::resize(
        &img,
        new_width,
        new_height,
        image::imageops::FilterType::Triangle,
    );
    GrayFrame { width: out.width(), height: out.height(), pixels: out.into_raw() }
}

/// Draws a white cross centred at `(x, y)`, taken as `i32`, with
/// imageproc's `draw_cross_mut`. It steps through the rows `y - 1 ..= y + 1`
/// and, for each that is inside the image, the columns `x - 1 ..= x + 1`,
/// comparing them with the sides taken as `i32`, and sets the pixels of its
/// plus-shaped stencil that are inside to the colour; every other pixel
/// stays as it was. The coordinates it computes must fit in `i32`.
#[verifier::external_body]
fn draw_white_cross(image: &mut GrayFrame, x: u32, y: u32)
    requires
        old(image).wf(),
        cross_defined(old(image).height, x, y),
    ensures
        final(image)@ == cross_drawn(old(image)@, as_signed(x), as_signed(y)),
        final(image).wf(),
{
    let pixels = std::mem::take(&mut image.pixels);
    let mut img = image::GrayImage::from_raw(image.width, image.height, pixels).unwrap();
    imageproc::drawing::draw_cross_mut(&mut img, image::Luma([255u8]), x as i32, y as i32);
    image.pixels = img.into_raw();
}

/// Corners of a doubled-resolution image mapped back to the original one.
pub open spec fn halved(s: Seq<(u32, u32)>) -> Seq<(u32, u32)> {
    s.map_values(|c: (u32, u32)| ((c.0 / 2) as u32, (c.1 / 2) as u32))
}

/// FAST-9 corners of `a` then of `b` for each threshold of `ts` in turn,
/// halved when `half`.
pub open spec fn fast_rounds(a: FrameView, b: FrameView, ts: Seq<u8>, half: bool) -> Seq<(u32, u32)>
    decreases ts.len(),
{
    if ts.len() == 0 {
        Seq::empty()
    } else {
        let prev = fast_rounds(a, b, ts.drop_last(), half);
        let t = ts.last();
        if half {
            prev + halved(fast9_corners(a, t)) + halved(fast9_corners(b, t))
        } else {
            prev + fast9_corners(a, t) + fast9_corners(b, t)
        }
    }
}

/// The doubled-resolution copy of `image` that small corners are sought in.
pub open spec fn upsampled(image: FrameView) -> FrameView {
    FrameView {
        width: 2 * image.width,
        height: 2 * image.height,
        pixels: triangle_resized(image, (2 * image.width) as u32, (2 * image.height) as u32),
    }
}

/// Corner candidates of a contrast-normalised image: FAST-9 at every
/// threshold on the image and its negative, then the same on a
/// doubled-resolution copy with the coordinates halved.
pub open spec fn board_candidates(image: FrameView) -> Seq<(u32, u32)> {
    let up = upsampled(image);
    fast_rounds(image, inverted(image), fast_thresholds(), false) + fast_rounds(
        up,
        inverted(up),
        fast_thresholds(),
        true,
    )
}

/// The images on which the candidate search can run: the doubled size fits
/// in `u32`, and the resampling buffers (the doubled image, and the
/// intermediate four-channel `f32` image of the original width and doubled
/// height) can be allocated.
pub open spec fn board_search_defined(image: FrameView) -> bool {
    &&& 2 * image.width <= u32::MAX
    &&& 2 * image.height <= u32::MAX
    &&& (2 * image.width) * (2 * image.height) <= isize::MAX
    &&& image.width * (2 * image.height) * 16 <= isize::MAX
}

fn push_corners(out: &mut Vec<(u32, u32)>, corners: &Vec<(u32, u32)>, half: bool)
    ensures
        final(out)@ == old(out)@ + if half {
            halved(corners@)
        } else {
            corners@
        },
{
    let ghost start = out@;
    let mut i: usize = 0;
    while i < corners.len()
        invariant
            i <= corners@.len(),
            out@ == start + if half {
                halved(corners@.take(i as int))
            } else {
                corners@.take(i as int)
            },
        decreases corners@.len() - i,
    {
        let c = corners[i];
        if half {
            out.push((c.0 / 2, c.1 / 2));
        } else {
            out.push(c);
        }
        proof {
            assert(corners@.take(i + 1) =~= corners@.take(i as int).push(c));
            assert(halved(corners@.take(i + 1)) =~= halved(corners@.take(i as int)).push(
                ((c.0 / 2) as u32, (c.1 / 2) as u32),
            ));
        }
        i += 1;
    }
    proof {
        assert(corners@.take(corners@.len() as int) =~= corners@);
    }
}

/// FAST-9 corners of `a` and then `b` at each of the thresholds.
fn collect_rounds(a: &GrayFrame, b: &GrayFrame, half: bool) -> (r: Vec<(u32, u32)>)
    requires
        a.wf(),
        b.wf(),
    ensures
        r@ == fast_rounds(a@, b@, fast_thresholds(), half),
{
    let thresholds: [u8; 4] = [5, 10, 20, 30];
    let mut out: Vec<(u32, u32)> = Vec::new();
    let mut k: usize = 0;
    proof {
        assert(thresholds@ =~= fast_thresholds());
        assert(fast_thresholds().take(0) =~= Seq::<u8>::empty());
    }
    while k < 4
        invariant
            a.wf(),
            b.wf(),
            thresholds@ == fast_thresholds(),
            k <= 4,
            out@ == fast_rounds(a@, b@, fast_thresholds().take(k as int), half),
        decreases 4 - k,
    {
        let t = thresholds[k];
        let ca = collect_fast_corners(a, t);
        let cb = collect_fast_corners(b, t);
        push_corners(&mut out, &ca, half);
        push_corners(&mut out, &cb, half);
        proof {
            assert(fast_thresholds().take(k + 1).drop_last() =~= fast_thresholds().take(k as int));
        }
        k += 1;
    }
    proof {
        assert(fast_thresholds().take(4) =~= fast_thresholds());
    }
    out
}

/// Corner candidates for the calibration board in a contrast-normalised
/// image: FAST-9 at thresholds 5, 10, 20 and 30 on the image and on its
/// negative, then the same on a copy upsampled twofold (so that small
/// checker corners register) with coordinates mapped back.
pub fn collect_board_candidates(normalized: &GrayFrame) -> (r: Vec<(u32, u32)>)
    requires
        normalized.wf(),
        board_search_defined(normalized@),
    ensures
        r@ == board_candidates(normalized@),
{
    let inv = invert_image(normalized);
    let mut out = collect_rounds(normalized, &inv, false);
    let up = resize_triangle(normalized, normalized.width * 2, normalized.height * 2);
    proof {
        assert(up@ =~= upsampled(normalized@));
    }
    let up_inv = invert_image(&up);
    let mut more = collect_rounds(&up, &up_inv, true);
    out.append(&mut more);
    out
}

/// The image after white crosses are drawn, in order, at the given corners.
pub open spec fn crosses_drawn(image: FrameView, corners: Seq<(u32, u32)>) -> FrameView
    decreases corners.len(),
{
    if corners.len() == 0 {
        image
    } else {
        let c = corners.last();
        cross_drawn(crosses_drawn(image, corners.drop_last()), as_signed(c.0), as_signed(c.1))
    }
}

/// Every FAST-9 corner of `image` at threshold 30 can be marked with a
/// cross whose coordinates fit in `i32`.
pub open spec fn corners_drawable(image: FrameView) -> bool {
    forall|i: int|
        0 <= i < fast9_corners(image, 30).len() ==> cross_defined(
            image.height as u32,
            (#[trigger] fast9_corners(image, 30)[i]).0,
            fast9_corners(image, 30)[i].1,
        )
}

/// Whether a cross at `(x, y)` can be drawn on an image of `height` rows.
fn cross_fits(height: u32, x: u32, y: u32) -> (r: bool)
    ensures
        r == cross_defined(height, x, y),
{
    let xs: i64 = if x <= 0x7fff_ffff {
        x as i64
    } else {
        x as i64 - 0x1_0000_0000
    };
    let ys: i64 = if y <= 0x7fff_ffff {
        y as i64
    } else {
        y as i64 - 0x1_0000_0000
    };
    let hs: i64 = if height <= 0x7fff_ffff {
        height as i64
    } else {
        height as i64 - 0x1_0000_0000
    };
    let rows_inside = hs > 0 && ys + 1 >= 0 && ys - 1 < hs;
    let y_fits = -0x8000_0000 < ys && ys < 0x7fff_ffff;
    let x_fits = -0x8000_0000 < xs && xs < 0x7fff_ffff;
    y_fits && (!rows_inside || x_fits)
}

/// A copy of `image` with a white cross on each of `corners`, in order.
fn mark_corners(image: &GrayFrame, corners: &Vec<(u32, u32)>) -> (r: GrayFrame)
    requires
        image.wf(),
        forall|k: int| 0 <= k < corners@.len() ==> cross_defined(image.height, (#[trigger] corners@[k]).0, corners@[k].1),
    ensures
        r@ == crosses_drawn(image@, corners@),
{
    let mut debug_image = image.duplicate();
    let mut i: usize = 0;
    while i < corners.len()
        invariant
            forall|k: int| 0 <= k < corners@.len() ==> cross_defined(image.height, (#[trigger] corners@[k]).0, corners@[k].1),
            i <= corners@.len(),
            debug_image.wf(),
            debug_image.height == image.height,
            debug_image@ == crosses_drawn(image@, corners@.take(i as int)),
        decreases corners@.len() - i,
    {
        let c = corners[i];
        proof {
            assert(corners@[i as int] == c);
        }
        draw_white_cross(&mut debug_image, c.0, c.1);
        proof {
            assert(corners@.take(i + 1).drop_last() =~= corners@.take(i as int));
        }
        i += 1;
    }
    proof {
        assert(corners@.take(corners@.len() as int) =~= corners@);
    }
    debug_image
}

/// A copy of `image` with a white cross on every FAST-9 corner found at
/// threshold 30. Each cross's coordinates must fit in `i32`;
/// `try_visualize_corners` checks that on any image.
pub fn visualize_corners(image: &GrayFrame) -> (r: GrayFrame)
    requires
        image.wf(),
        corners_drawable(image@),
    ensures
        r@ == crosses_drawn(image@, fast9_corners(image@, 30)),
{
    let corners = collect_fast_corners(image, 30);
    proof {
        assert forall|k: int| 0 <= k < corners@.len() implies cross_defined(
            image.height,
            (#[trigger] corners@[k]).0,
            corners@[k].1,
        ) by {
            assert(corners@[k] == fast9_corners(image@, 30)[k]);
        }
    }
    mark_corners(image, &corners)
}

/// `visualize_corners` where every corner's cross fits in `i32`; `None`
/// when one does not (a corner at row or column `2^31 - 1` or `2^31` of an
/// image larger than `i32::MAX` pixels across).
pub fn try_visualize_corners(image: &GrayFrame) -> (r: Option<GrayFrame>)
    requires
        image.wf(),
    ensures
        r is Some <==> corners_drawable(image@),
        r matches Some(f) ==> f@ == crosses_drawn(image@, fast9_corners(image@, 30)),
{
    let corners = collect_fast_corners(image, 30);
    let mut i: usize = 0;
    while i < corners.len()
        invariant
            corners@ == fast9_corners(image@, 30),
            i <= corners@.len(),
            forall|k: int| 0 <= k < i ==> cross_defined(image.height, (#[trigger] corners@[k]).0, corners@[k].1),
        decreases corners@.len() - i,
    {
        let c = corners[i];
        if !cross_fits(image.height, c.0, c.1) {
            proof {
                assert(corners@[i as int] == c);
                assert(!cross_defined(image.height, fast9_corners(image@, 30)[i as int].0, fast9_corners(image@, 30)[i as int].1));
            }
            return None;
        }
        proof {
            assert(corners@[i as int] == c);
        }
        i += 1;
    }
    Some(mark_corners(image, &corners))
}

/// The smallest value of `s`, or 255 for an empty sequence.
pub open spec fn seq_min(s: Seq<u8>) -> u8
    decreases s.len(),
{
    if s.len() == 0 {
        255
    } else {
        let m = seq_min(s.drop_last());
        if s.last() < m {
            s.last()
        } else {
            m
        }
    }
}

/// The darkest and brightest pixel values, which contrast normalisation
/// stretches to 0 and 255; `None` when they differ by 5 or less and the
/// image is left as it is.
pub open spec fn stretch_range(pixels: Seq<u8>) -> Option<(u8, u8)> {
    if seq_max(pixels) <= seq_min(pixels) + 5 {
        None
    } else {
        Some((seq_min(pixels), seq_max(pixels)))
    }
}

/// The pixel range that contrast normalisation maps onto the full scale, or
/// `None` for an image too flat to stretch. The darkest pixel must be at
/// most 250 (the flatness test adds 5 to it in 8 bits).
pub fn contrast_range(image: &GrayFrame) -> (r: Option<(u8, u8)>)
    requires
        seq_min(image.pixels@) <= 250,
    ensures
        r == stretch_range(image.pixels@),
{
    let mut min_val: u8 = 255;
    let mut max_val: u8 = 0;
    let mut i: usize = 0;
    while i < image.pixels.len()
        invariant
            i <= image.pixels@.len(),
            min_val == seq_min(image.pixels@.take(i as int)),
            max_val == seq_max(image.pixels@.take(i as int)),
        decreases image.pixels@.len() - i,
    {
        let v = image.pixels[i];
        proof {
            assert(image.pixels@.take(i + 1).drop_last() =~= image.pixels@.take(i as int));
        }
        if v < min_val {
            min_val = v;
        }
        if v > max_val {
            max_val = v;
        }
        i += 1;
    }
    proof {
        assert(image.pixels@.take(image.pixels@.len() as int) =~= image.pixels@);
    }
    if max_val <= min_val + 5 {
        None
    } else {
        Some((min_val, max_val))
    }
}

/// Corner candidates merged into one: the sums of the members'
/// coordinates, how many there are, and the lookup cell of the candidate
/// that founded the cluster. Its centre is `(sum_x / count, sum_y / count)`.
#[derive(Debug, Clone, Copy, PartialEq, Eq)]
pub struct CornerCluster {
    pub sum_x: u64,
    pub sum_y: u64,
    pub count: u64,
    pub cell_x: i32,
    pub cell_y: i32,
}

/// The bits of `v` read as an `i32`.
pub open spec fn as_signed(v: u32) -> int {
    if v <= 0x7fff_ffff {
        v as int
    } else {
        v - 0x1_0000_0000
    }
}

/// `a / b` rounded toward zero, as integer division does.
pub open spec fn div_toward_zero(a: int, b: int) -> int {
    let q = (if a < 0 {
        -a
    } else {
        a
    }) / (if b < 0 {
        -b
    } else {
        b
    });
    if (a < 0) == (b < 0) {
        q
    } else {
        -q
    }
}

/// Side of the square lookup cells: the merge radius, at least 1, taken as
/// an `i32` like the cell arithmetic.
pub open spec fn cell_size(radius: u32) -> int {
    as_signed(
        if radius == 0 {
            1
        } else {
            radius
        },
    )
}

/// The lookup cell of a coordinate: coordinate and cell side taken as
/// `i32` and divided toward zero.
pub open spec fn cell_of(v: u32, radius: u32) -> int {
    div_toward_zero(as_signed(v), cell_size(radius))
}

/// The cells on both sides of `v`'s cell exist as `i32`.
pub open spec fn cell_in_range(v: u32, radius: u32) -> bool {
    i32::MIN < cell_of(v, radius) < i32::MAX
}

pub open spec fn sq(v: int) -> int {
    v * v
}

/// `p` lies within `radius` of the cluster's centre, compared exactly by
/// scaling both by the member count: where a floating-point mean would
/// round a distance of exactly `radius` up, this keeps `p` within reach.
pub open spec fn within_reach(c: CornerCluster, p: (u32, u32), radius: u32) -> bool {
    sq(c.sum_x - p.0 * c.count) + sq(c.sum_y - p.1 * c.count) <= sq(radius * c.count)
}

/// Cluster `i` was founded in cell `(nx, ny)` and reaches `p`.
pub open spec fn hit(cs: Seq<CornerCluster>, nx: int, ny: int, p: (u32, u32), radius: u32, i: int) -> bool {
    cs[i].cell_x == nx && cs[i].cell_y == ny && within_reach(cs[i], p, radius)
}

/// The first cluster from index `i` on that was founded in cell `(nx, ny)`
/// and reaches `p`.
pub open spec fn first_in_cell(
    cs: Seq<CornerCluster>,
    nx: int,
    ny: int,
    p: (u32, u32),
    radius: u32,
    i: int,
) -> Option<int>
    decreases cs.len() - i,
{
    if i < 0 || i >= cs.len() {
        None
    } else if hit(cs, nx, ny, p, radius, i) {
        Some(i)
    } else {
        first_in_cell(cs, nx, ny, p, radius, i + 1)
    }
}

/// The cluster that `p` joins: the cells around `(cx, cy)` are searched row
/// by row, left to right, from the `k`-th of the nine on, and within a cell
/// the clusters in the order they were founded.
pub open spec fn first_near(
    cs: Seq<CornerCluster>,
    cx: int,
    cy: int,
    p: (u32, u32),
    radius: u32,
    k: int,
) -> Option<int>
    decreases 9 - k,
{
    if k < 0 || k >= 9 {
        None
    } else {
        match first_in_cell(cs, cx - 1 + k % 3, cy - 1 + k / 3, p, radius, 0) {
            Some(i) => Some(i),
            None => first_near(cs, cx, cy, p, radius, k + 1),
        }
    }
}

/// `c` with `p` added to it.
pub open spec fn joined(c: CornerCluster, p: (u32, u32)) -> CornerCluster {
    CornerCluster {
        sum_x: (c.sum_x + p.0) as u64,
        sum_y: (c.sum_y + p.1) as u64,
        count: (c.count + 1) as u64,
        ..c
    }
}

/// A new cluster holding only `p`.
pub open spec fn founded(p: (u32, u32), radius: u32) -> CornerCluster {
    CornerCluster {
        sum_x: p.0 as u64,
        sum_y: p.1 as u64,
        count: 1,
        cell_x: cell_of(p.0, radius) as i32,
        cell_y: cell_of(p.1, radius) as i32,
    }
}

/// The clusters after `p` is merged: it joins the cluster it finds nearby,
/// or founds a new one.
pub open spec fn merge_step(cs: Seq<CornerCluster>, p: (u32, u32), radius: u32) -> Seq<CornerCluster> {
    match first_near(cs, cell_of(p.0, radius), cell_of(p.1, radius), p, radius, 0) {
        Some(i) => cs.update(i, joined(cs[i], p)),
        None => cs.push(founded(p, radius)),
    }
}

/// The clusters of a sequence of candidates, merged one by one in order.
pub open spec fn merged_clusters(points: Seq<(u32, u32)>, radius: u32) -> Seq<CornerCluster>
    decreases points.len(),
{
    if points.len() == 0 {
        Seq::empty()
    } else {
        merge_step(merged_clusters(points.drop_last(), radius), points.last(), radius)
    }
}

/// Every candidate's cell has neighbouring cells in `i32`.
pub open spec fn cells_in_range(points: Seq<(u32, u32)>, radius: u32) -> bool {
    forall|i: int|
        0 <= i < points.len() ==> cell_in_range((#[trigger] points[i]).0, radius) && cell_in_range(
            points[i].1,
            radius,
        )
}

/// Every cluster has between 1 and `n` members.
pub open spec fn clusters_bounded(cs: Seq<CornerCluster>, n: int) -> bool {
    forall|i: int|
        0 <= i < cs.len() ==> 1 <= (#[trigger] cs[i]).count <= n && cs[i].sum_x <= cs[i].count * 0xffff_ffff
            && cs[i].sum_y <= cs[i].count * 0xffff_ffff
}

fn abs_diff_u64(a: u64, b: u64) -> (r: u128)
    ensures
        r == if a >= b { a - b } else { b - a },
{
    if a >= b {
        (a - b) as u128
    } else {
        (b - a) as u128
    }
}

fn reaches(c: &CornerCluster, p: (u32, u32), radius: u32) -> (r: bool)
    requires
        1 <= c.count <= u32::MAX,
        c.sum_x <= c.count * 0xffff_ffff,
        c.sum_y <= c.count * 0xffff_ffff,
    ensures
        r == within_reach(*c, p, radius),
{
    let count = c.count;
    proof {
        assert(p.0 * count < 0x1_0000_0000_0000_0000 && p.1 * count < 0x1_0000_0000_0000_0000)
            by (nonlinear_arith)
            requires
                count <= 0xffff_ffff,
        ;
        assert(radius * count < 0x1_0000_0000_0000_0000) by (nonlinear_arith)
            requires
                count <= 0xffff_ffff,
        ;
    }
    let px = p.0 as u64 * count;
    let py = p.1 as u64 * count;
    let dx = abs_diff_u64(c.sum_x, px);
    let dy = abs_diff_u64(c.sum_y, py);
    let reach = radius as u128 * count as u128;
    let ghost ax = c.sum_x - p.0 * count;
    let ghost ay = c.sum_y - p.1 * count;
    proof {
        assert(dx * dx == sq(ax)) by (nonlinear_arith)
            requires
                dx == ax || dx == -ax,
        ;
        assert(dy * dy == sq(ay)) by (nonlinear_arith)
            requires
                dy == ay || dy == -ay,
        ;
        assert(reach * reach < 0x1_0000_0000_0000_0000_0000_0000_0000_0000) by (nonlinear_arith)
            requires
                reach < 0x1_0000_0000_0000_0000,
        ;
    }
    if dx > reach || dy > reach {
        proof {
            assert(dx * dx > reach * reach || dy * dy > reach * reach) by (nonlinear_arith)
                requires
                    dx > reach || dy > reach,
                    reach >= 0,
            ;
        }
        return false;
    }
    proof {
        assert(dx * dx <= reach * reach && dy * dy <= reach * reach) by (nonlinear_arith)
            requires
                dx <= reach,
                dy <= reach,
                dx >= 0,
                dy >= 0,
        ;
    }
    let rr = reach * reach;
    let a = dx * dx;
    dy * dy <= rr - a
}

/// The cell side as the cell arithmetic takes it.
fn signed_cell_size(radius: u32) -> (r: i64)
    ensures
        r == cell_size(radius),
        r != 0,
        -0x8000_0000 <= r <= 0x7fff_ffff,
{
    let side = if radius == 0 {
        1
    } else {
        radius
    };
    if side <= 0x7fff_ffff {
        side as i64
    } else {
        side as i64 - 0x1_0000_0000
    }
}

/// The lookup cell of coordinate `v` for a cell side `side`.
fn cell_index(v: u32, side: i64) -> (r: i64)
    requires
        side != 0,
        -0x8000_0000 <= side <= 0x7fff_ffff,
    ensures
        r == div_toward_zero(as_signed(v), side as int),
{
    let a: i64 = if v <= 0x7fff_ffff {
        v as i64
    } else {
        v as i64 - 0x1_0000_0000
    };
    let ua: u64 = if a < 0 {
        (-a) as u64
    } else {
        a as u64
    };
    let ub: u64 = if side < 0 {
        (-side) as u64
    } else {
        side as u64
    };
    let q = ua / ub;
    proof {
        vstd::arithmetic::div_mod::lemma_div_is_ordered_by_denominator(ua as int, 1, ub as int);
    }
    if (a < 0) == (side < 0) {
        q as i64
    } else {
        -(q as i64)
    }
}

/// The key of cell `(cx, cy)` in the lookup grid: the two `i32` cells,
/// offset to be nonnegative, side by side in 64 bits.
pub open spec fn cell_key(cx: int, cy: int) -> u64 {
    ((cx + 0x8000_0000) * 0x1_0000_0000 + (cy + 0x8000_0000)) as u64
}

/// The grid key of the cell a cluster was founded in.
pub open spec fn key_of(c: CornerCluster) -> u64 {
    cell_key(c.cell_x as int, c.cell_y as int)
}

/// `l` lists, in increasing order, clusters of `cs` founded in the cell
/// with key `key`.
pub open spec fn lists_cell(l: Seq<usize>, cs: Seq<CornerCluster>, key: u64) -> bool {
    &&& forall|m: int| 0 <= m < l.len() ==> (#[trigger] l[m]) < cs.len() && key_of(cs[l[m] as int]) == key
    &&& forall|m1: int, m2: int| 0 <= m1 < m2 < l.len() ==> #[trigger] l[m1] < #[trigger] l[m2]
}

/// The lookup grid lists every cluster under the key of its founding cell,
/// and lists nothing else.
pub open spec fn grid_indexes(grid: Map<u64, Vec<usize>>, cs: Seq<CornerCluster>) -> bool {
    &&& forall|key: u64| #[trigger] grid.contains_key(key) ==> lists_cell(grid[key]@, cs, key)
    &&& forall|j: int|
        0 <= j < cs.len() ==> grid.contains_key(key_of(#[trigger] cs[j])) && grid[key_of(cs[j])]@.contains(
            j as usize,
        )
}

/// The grid key of cell `(cx, cy)`.
fn grid_key(cx: i64, cy: i64) -> (r: u64)
    requires
        i32::MIN <= cx <= i32::MAX,
        i32::MIN <= cy <= i32::MAX,
    ensures
        r == cell_key(cx as int, cy as int),
{
    (cx + 0x8000_0000) as u64 * 0x1_0000_0000 + (cy + 0x8000_0000) as u64
}

/// Cells in `i32` range have distinct keys.
proof fn lemma_cell_key_injective(a: int, b: int, c: int, d: int)
    requires
        i32::MIN <= a <= i32::MAX,
        i32::MIN <= b <= i32::MAX,
        i32::MIN <= c <= i32::MAX,
        i32::MIN <= d <= i32::MAX,
        cell_key(a, b) == cell_key(c, d),
    ensures
        a == c,
        b == d,
{
    let v1 = (a + 0x8000_0000) * 0x1_0000_0000 + (b + 0x8000_0000);
    let v2 = (c + 0x8000_0000) * 0x1_0000_0000 + (d + 0x8000_0000);
    assert(0 <= v1 < 0x1_0000_0000_0000_0000) by (nonlinear_arith)
        requires
            v1 == (a + 0x8000_0000) * 0x1_0000_0000 + (b + 0x8000_0000),
            0 <= a + 0x8000_0000 < 0x1_0000_0000,
            0 <= b + 0x8000_0000 < 0x1_0000_0000,
    ;
    assert(0 <= v2 < 0x1_0000_0000_0000_0000) by (nonlinear_arith)
        requires
            v2 == (c + 0x8000_0000) * 0x1_0000_0000 + (d + 0x8000_0000),
            0 <= c + 0x8000_0000 < 0x1_0000_0000,
            0 <= d + 0x8000_0000 < 0x1_0000_0000,
    ;
    assert(v1 == v2);
    vstd::arithmetic::div_mod::lemma_fundamental_div_mod_converse(
        v1,
        0x1_0000_0000,
        a + 0x8000_0000,
        b + 0x8000_0000,
    );
    vstd::arithmetic::div_mod::lemma_fundamental_div_mod_converse(
        v2,
        0x1_0000_0000,
        c + 0x8000_0000,
        d + 0x8000_0000,
    );
}

/// Clusters that do not reach `p` from cell `(nx, ny)` can be skipped.
proof fn lemma_first_in_cell_skip(
    cs: Seq<CornerCluster>,
    nx: int,
    ny: int,
    p: (u32, u32),
    radius: u32,
    a: int,
    b: int,
)
    requires
        0 <= a <= b <= cs.len(),
        forall|j: int| a <= j < b ==> !hit(cs, nx, ny, p, radius, j),
    ensures
        first_in_cell(cs, nx, ny, p, radius, a) == first_in_cell(cs, nx, ny, p, radius, b),
    decreases b - a,
{
    if a < b {
        lemma_first_in_cell_skip(cs, nx, ny, p, radius, a + 1, b);
    }
}

/// A cluster that `p` hits from cell `(nx, ny)` is listed under that cell.
proof fn lemma_hit_listed(
    grid: Map<u64, Vec<usize>>,
    cs: Seq<CornerCluster>,
    nx: int,
    ny: int,
    p: (u32, u32),
    radius: u32,
    j: int,
)
    requires
        grid_indexes(grid, cs),
        0 <= j < cs.len(),
        hit(cs, nx, ny, p, radius, j),
    ensures
        grid.contains_key(cell_key(nx, ny)),
        grid[cell_key(nx, ny)]@.contains(j as usize),
{
    assert(grid.contains_key(key_of(cs[j])));
}

/// The first cluster founded in cell `(nx, ny)` that reaches `p`, found by
/// looking the cell up in the grid.
fn find_in_cell(
    cs: &Vec<CornerCluster>,
    grid: &HashMap<u64, Vec<usize>>,
    nx: i64,
    ny: i64,
    p: (u32, u32),
    radius: u32,
) -> (r: Option<usize>)
    requires
        clusters_bounded(cs@, u32::MAX as int),
        grid_indexes(grid@, cs@),
        cs@.len() < usize::MAX,
        i32::MIN <= nx <= i32::MAX,
        i32::MIN <= ny <= i32::MAX,
    ensures
        first_in_cell(cs@, nx as int, ny as int, p, radius, 0) == match r {
            Some(i) => Some(i as int),
            None => None::<int>,
        },
        r matches Some(i) ==> i < cs@.len(),
{
    broadcast use vstd::std_specs::hash::group_hash_axioms;

    let ghost n = cs@.len() as int;
    let key = grid_key(nx, ny);
    match grid.get(&key) {
        None => {
            proof {
                assert forall|j: int| 0 <= j < n implies !hit(cs@, nx as int, ny as int, p, radius, j) by {
                    if hit(cs@, nx as int, ny as int, p, radius, j) {
                        lemma_hit_listed(grid@, cs@, nx as int, ny as int, p, radius, j);
                    }
                }
                lemma_first_in_cell_skip(cs@, nx as int, ny as int, p, radius, 0, n);
            }
            None
        },
        Some(list) => {
            let ghost l = list@;
            proof {
                assert(lists_cell(l, cs@, key));
                assert forall|j: int|
                    0 <= j < (if 0 < l.len() { l[0] as int } else { n }) implies !hit(
                    cs@,
                    nx as int,
                    ny as int,
                    p,
                    radius,
                    j,
                ) by {
                    if hit(cs@, nx as int, ny as int, p, radius, j) {
                        lemma_hit_listed(grid@, cs@, nx as int, ny as int, p, radius, j);
                        let m2 = choose|m2: int| 0 <= m2 < l.len() && l[m2] == j as usize;
                        if m2 > 0 {
                            assert(l[0] < l[m2]);
                        }
                    }
                }
                lemma_first_in_cell_skip(
                    cs@,
                    nx as int,
                    ny as int,
                    p,
                    radius,
                    0,
                    if 0 < l.len() { l[0] as int } else { n },
                );
            }
            let mut m: usize = 0;
            while m < list.len()
                invariant
                    l == list@,
                    n == cs@.len(),
                    n < usize::MAX,
                    clusters_bounded(cs@, u32::MAX as int),
                    grid_indexes(grid@, cs@),
                    grid@.contains_key(key),
                    grid@[key]@ == l,
                    key == cell_key(nx as int, ny as int),
                    lists_cell(l, cs@, key),
                    i32::MIN <= nx <= i32::MAX,
                    i32::MIN <= ny <= i32::MAX,
                    m <= l.len(),
                    first_in_cell(cs@, nx as int, ny as int, p, radius, 0) == first_in_cell(
                        cs@,
                        nx as int,
                        ny as int,
                        p,
                        radius,
                        if m < l.len() { l[m as int] as int } else { n },
                    ),
                decreases l.len() - m,
            {
                let j = list[m];
                let c = cs[j];
                proof {
                    assert(key_of(cs@[j as int]) == key);
                    lemma_cell_key_injective(c.cell_x as int, c.cell_y as int, nx as int, ny as int);
                    assert(1 <= cs@[j as int].count <= u32::MAX);
                }
                if reaches(&c, p, radius) {
                    return Some(j);
                }
                proof {
                    let next = if m + 1 < l.len() { l[m + 1] as int } else { n };
                    assert forall|jj: int| j <= jj < next implies !hit(
                        cs@,
                        nx as int,
                        ny as int,
                        p,
                        radius,
                        jj,
                    ) by {
                        if hit(cs@, nx as int, ny as int, p, radius, jj) {
                            assert(jj != j);
                            lemma_hit_listed(grid@, cs@, nx as int, ny as int, p, radius, jj);
                            assert(l.contains(jj as usize));
                            let m2 = choose|m2: int| 0 <= m2 < l.len() && l[m2] == jj as usize;
                            if m2 < m {
                                assert(l[m2] < l[m as int]);
                            } else if m2 == m {
                                assert(l[m2] == j);
                            } else if m2 == m + 1 {
                                assert(next == l[m2]);
                            } else {
                                assert(l[m as int + 1] < l[m2]);
                            }
                        }
                    }
                    lemma_first_in_cell_skip(cs@, nx as int, ny as int, p, radius, j as int, next);
                }
                m += 1;
            }
            None
        },
    }
}

fn find_near(
    cs: &Vec<CornerCluster>,
    grid: &HashMap<u64, Vec<usize>>,
    cx: i64,
    cy: i64,
    p: (u32, u32),
    radius: u32,
) -> (r: Option<usize>)
    requires
        clusters_bounded(cs@, u32::MAX as int),
        grid_indexes(grid@, cs@),
        cs@.len() < usize::MAX,
        i32::MIN < cx < i32::MAX,
        i32::MIN < cy < i32::MAX,
    ensures
        first_near(cs@, cx as int, cy as int, p, radius, 0) == match r {
            Some(i) => Some(i as int),
            None => None::<int>,
        },
        r matches Some(i) ==> i < cs@.len(),
{
    let mut k: i64 = 0;
    while k < 9
        invariant
            0 <= k <= 9,
            clusters_bounded(cs@, u32::MAX as int),
            grid_indexes(grid@, cs@),
            cs@.len() < usize::MAX,
            i32::MIN < cx < i32::MAX,
            i32::MIN < cy < i32::MAX,
            first_near(cs@, cx as int, cy as int, p, radius, 0) == first_near(
                cs@,
                cx as int,
                cy as int,
                p,
                radius,
                k as int,
            ),
        decreases 9 - k,
    {
        let found = find_in_cell(cs, grid, cx - 1 + k % 3, cy - 1 + k / 3, p, radius);
        if let Some(i) = found {
            return Some(i);
        }
        k += 1;
    }
    None
}

/// Founding a cluster and listing it under its cell keeps the grid an
/// index of the clusters.
proof fn lemma_grid_push(
    old_grid: Map<u64, Vec<usize>>,
    grid: Map<u64, Vec<usize>>,
    before: Seq<CornerCluster>,
    cs: Seq<CornerCluster>,
    key: u64,
    old_list: Seq<usize>,
)
    requires
        grid_indexes(old_grid, before),
        before.len() < usize::MAX,
        cs.len() == before.len() + 1,
        forall|j: int| 0 <= j < before.len() ==> cs[j] == before[j],
        key_of(cs[before.len() as int]) == key,
        old_grid.contains_key(key) ==> old_list == old_grid[key]@,
        !old_grid.contains_key(key) ==> old_list == Seq::<usize>::empty(),
        grid.contains_key(key),
        grid[key]@ == old_list.push(before.len() as usize),
        forall|k: u64| k != key ==> (#[trigger] grid.contains_key(k) <==> old_grid.contains_key(k)),
        forall|k: u64| k != key && #[trigger] grid.contains_key(k) ==> grid[k] == old_grid[k],
    ensures
        grid_indexes(grid, cs),
{
    let n = before.len() as int;
    assert forall|k: u64| #[trigger] grid.contains_key(k) implies lists_cell(grid[k]@, cs, k) by {
        if k == key {
            let l = grid[k]@;
            assert forall|m: int| 0 <= m < old_list.len() implies (#[trigger] old_list[m]) < before.len()
                && key_of(before[old_list[m] as int]) == key by {
                assert(old_grid.contains_key(key));
                assert(lists_cell(old_grid[key]@, before, key));
            }
            assert forall|m1: int, m2: int| 0 <= m1 < m2 < old_list.len() implies #[trigger] old_list[m1]
                < #[trigger] old_list[m2] by {
                assert(old_grid.contains_key(key));
                assert(lists_cell(old_grid[key]@, before, key));
            }
            assert forall|m: int| 0 <= m < l.len() implies (#[trigger] l[m]) < cs.len() && key_of(
                cs[l[m] as int],
            ) == k by {
                if m < old_list.len() {
                    assert(l[m] == old_list[m]);
                    assert(cs[l[m] as int] == before[l[m] as int]);
                }
            }
            assert forall|m1: int, m2: int| 0 <= m1 < m2 < l.len() implies #[trigger] l[m1] < #[trigger] l[m2] by {
                assert(l[m1] == old_list[m1]);
                if m2 < old_list.len() {
                    assert(l[m2] == old_list[m2]);
                } else {
                    assert(old_list[m1] < before.len());
                }
            }
        } else {
            assert(lists_cell(old_grid[k]@, before, k));
            let l = grid[k]@;
            assert forall|m: int| 0 <= m < l.len() implies (#[trigger] l[m]) < cs.len() && key_of(
                cs[l[m] as int],
            ) == k by {
                assert(cs[l[m] as int] == before[l[m] as int]);
            }
        }
    }
    assert forall|j: int| 0 <= j < cs.len() implies grid.contains_key(key_of(#[trigger] cs[j]))
        && grid[key_of(cs[j])]@.contains(j as usize) by {
        if j == n {
            assert(grid[key]@[old_list.len() as int] == j as usize);
            assert(grid[key]@.contains(j as usize));
        } else {
            assert(cs[j] == before[j]);
            let kj = key_of(before[j]);
            assert(old_grid.contains_key(kj) && old_grid[kj]@.contains(j as usize));
            let m = choose|m: int| 0 <= m < old_grid[kj]@.len() && old_grid[kj]@[m] == j as usize;
            if kj == key {
                assert(old_list == old_grid[key]@);
                assert(grid[key]@[m] == j as usize);
                assert(grid[key]@.contains(j as usize));
            } else {
                assert(grid.contains_key(kj));
                assert(grid[kj] == old_grid[kj]);
                assert(grid[kj]@[m] == j as usize);
                assert(grid[kj]@.contains(j as usize));
            }
        }
    }
}

/// Merges corner candidates that lie within `radius` pixels of a cluster's
/// centre, in order: each candidate joins the first cluster found in the
/// 3 by 3 lookup cells around its own (of side `radius`, at least 1, the
/// cells computed in `i32`) whose centre is within reach (compared exactly,
/// see `within_reach`), or founds a new cluster in its cell. A hash map
/// from each cell to the clusters founded there, in founding order, finds
/// the clusters of a cell. Every candidate's cell must have neighbours in
/// `i32`, and there are at most `u32::MAX` candidates, so that member
/// counts stay within `u32`.
pub fn merge_corners(points: &Vec<(u32, u32)>, radius: u32) -> (r: Vec<CornerCluster>)
    requires
        points@.len() <= u32::MAX,
        cells_in_range(points@, radius),
    ensures
        r@ == merged_clusters(points@, radius),
{
    broadcast use vstd::std_specs::hash::group_hash_axioms;

    let side = signed_cell_size(radius);
    let mut clusters: Vec<CornerCluster> = Vec::new();
    let mut grid: HashMap<u64, Vec<usize>> = HashMap::new();
    let mut i: usize = 0;
    proof {
        assert(points@.take(0) =~= Seq::<(u32, u32)>::empty());
    }
    while i < points.len()
        invariant
            i <= points@.len(),
            points@.len() <= u32::MAX,
            side == cell_size(radius),
            side != 0,
            -0x8000_0000 <= side <= 0x7fff_ffff,
            cells_in_range(points@, radius),
            clusters@ == merged_clusters(points@.take(i as int), radius),
            clusters_bounded(clusters@, i as int),
            clusters@.len() <= i,
            grid_indexes(grid@, clusters@),
        decreases points@.len() - i,
    {
        let p = points[i];
        let cx = cell_index(p.0, side);
        let cy = cell_index(p.1, side);
        proof {
            assert(cell_in_range(points@[i as int].0, radius) && cell_in_range(points@[i as int].1, radius));
            assert(points@[i as int] == p);
        }
        let ghost before = clusters@;
        proof {
            assert(points@.take(i + 1).drop_last() =~= points@.take(i as int));
            assert(points@.take(i + 1).last() == p);
        }
        let found = find_near(&clusters, &grid, cx, cy, p, radius);
        match found {
            Some(j) => {
                let c = clusters[j];
                proof {
                    assert(1 <= before[j as int].count <= i);
                }
                let n = CornerCluster {
                    sum_x: c.sum_x + p.0 as u64,
                    sum_y: c.sum_y + p.1 as u64,
                    count: c.count + 1,
                    cell_x: c.cell_x,
                    cell_y: c.cell_y,
                };
                clusters.set(j, n);
                proof {
                    assert(clusters@ =~= before.update(j as int, joined(before[j as int], p)));
                    assert forall|jj: int| 0 <= jj < clusters@.len() implies key_of(#[trigger] clusters@[jj])
                        == key_of(before[jj]) by {}
                    assert forall|key: u64| #[trigger] grid@.contains_key(key) implies lists_cell(
                        grid@[key]@,
                        clusters@,
                        key,
                    ) by {
                        assert(lists_cell(grid@[key]@, before, key));
                        let l = grid@[key]@;
                        assert forall|m: int| 0 <= m < l.len() implies (#[trigger] l[m]) < clusters@.len()
                            && key_of(clusters@[l[m] as int]) == key by {
                            assert(key_of(clusters@[l[m] as int]) == key_of(before[l[m] as int]));
                        }
                    }
                    assert forall|jj: int| 0 <= jj < clusters@.len() implies grid@.contains_key(
                        key_of(#[trigger] clusters@[jj]),
                    ) && grid@[key_of(clusters@[jj])]@.contains(jj as usize) by {
                        assert(key_of(clusters@[jj]) == key_of(before[jj]));
                    }
                }
            },
            None => {
                let idx = clusters.len();
                let key = grid_key(cx, cy);
                let ghost old_grid = grid@;
                let mut list = match grid.remove(&key) {
                    Some(l) => l,
                    None => Vec::new(),
                };
                let ghost old_list = list@;
                list.push(idx);
                grid.insert(key, list);
                clusters.push(
                    CornerCluster {
                        sum_x: p.0 as u64,
                        sum_y: p.1 as u64,
                        count: 1,
                        cell_x: cx as i32,
                        cell_y: cy as i32,
                    },
                );
                proof {
                    assert(clusters@ =~= before.push(founded(p, radius)));
                    lemma_grid_push(old_grid, grid@, before, clusters@, key, old_list);
                }
            },
        }
        i += 1;
    }
    proof {
        assert(points@.take(points@.len() as int) =~= points@);
    }
    clusters
}

/// Cluster `c` was founded in one of the nine cells around `(cx, cy)`.
pub open spec fn founded_near(c: CornerCluster, cx: int, cy: int) -> bool {
    -1 <= c.cell_x - cx <= 1 && -1 <= c.cell_y - cy <= 1
}

/// `p` is within `radius` of the centre of `c`: the squared distance from
/// `p` to `(sum_x / count, sum_y / count)`, scaled by `count` squared.
pub open spec fn centre_reaches(c: CornerCluster, p: (u32, u32), radius: u32) -> bool {
    (c.sum_x - p.0 * c.count) * (c.sum_x - p.0 * c.count) + (c.sum_y - p.1 * c.count) * (c.sum_y
        - p.1 * c.count) <= (radius * c.count) * (radius * c.count)
}

proof fn lemma_first_in_cell_found(
    cs: Seq<CornerCluster>,
    nx: int,
    ny: int,
    p: (u32, u32),
    radius: u32,
    from: int,
    i: int,
)
    requires
        0 <= from,
    ensures
        first_in_cell(cs, nx, ny, p, radius, from) matches Some(j) ==> 0 <= j < cs.len() && hit(
            cs,
            nx,
            ny,
            p,
            radius,
            j,
        ),
        from <= i < cs.len() && hit(cs, nx, ny, p, radius, i) ==> first_in_cell(
            cs,
            nx,
            ny,
            p,
            radius,
            from,
        ) is Some,
    decreases cs.len() - from,
{
    if from < cs.len() && !hit(cs, nx, ny, p, radius, from) {
        lemma_first_in_cell_found(cs, nx, ny, p, radius, from + 1, i);
    }
}

proof fn lemma_first_near_found(
    cs: Seq<CornerCluster>,
    cx: int,
    cy: int,
    p: (u32, u32),
    radius: u32,
    k: int,
    i: int,
    ki: int,
)
    requires
        0 <= k,
    ensures
        first_near(cs, cx, cy, p, radius, k) matches Some(j) ==> 0 <= j < cs.len() && founded_near(
            cs[j],
            cx,
            cy,
        ) && within_reach(cs[j], p, radius),
        k <= ki < 9 && 0 <= i < cs.len() && hit(cs, cx - 1 + ki % 3, cy - 1 + ki / 3, p, radius, i)
            ==> first_near(cs, cx, cy, p, radius, k) is Some,
    decreases 9 - k,
{
    if k < 9 {
        lemma_first_in_cell_found(cs, cx - 1 + k % 3, cy - 1 + k / 3, p, radius, 0, i);
        lemma_first_near_found(cs, cx, cy, p, radius, k + 1, i, ki);
    }
}

/// A candidate joins an existing cluster exactly when some cluster founded
/// in one of the nine cells around the candidate's own cell has its centre
/// within `radius` of it, and then it joins one such cluster and changes no
/// other; otherwise it founds a new cluster at the end.
pub proof fn lemma_merge_searches_nine_cells(points: Seq<(u32, u32)>, p: (u32, u32), radius: u32)
    ensures
        ({
            let cs = merged_clusters(points, radius);
            let next = merged_clusters(points.push(p), radius);
            let cx = cell_of(p.0, radius);
            let cy = cell_of(p.1, radius);
            &&& (exists|i: int|
                0 <= i < cs.len() && founded_near(#[trigger] cs[i], cx, cy) && centre_reaches(cs[i], p, radius))
                ==> exists|i: int|
                0 <= i < cs.len() && founded_near(#[trigger] cs[i], cx, cy) && centre_reaches(cs[i], p, radius)
                    && next == cs.update(i, joined(cs[i], p))
            &&& !(exists|i: int|
                0 <= i < cs.len() && founded_near(#[trigger] cs[i], cx, cy) && centre_reaches(cs[i], p, radius))
                ==> next == cs.push(founded(p, radius))
        }),
{
    let cs = merged_clusters(points, radius);
    let cx = cell_of(p.0, radius);
    let cy = cell_of(p.1, radius);
    assert(points.push(p).drop_last() =~= points);
    assert(points.push(p).last() == p);
    assert(merged_clusters(points.push(p), radius) == merge_step(cs, p, radius));
    if exists|i: int| 0 <= i < cs.len() && founded_near(#[trigger] cs[i], cx, cy) && centre_reaches(cs[i], p, radius) {
        let i = choose|i: int|
            0 <= i < cs.len() && founded_near(#[trigger] cs[i], cx, cy) && centre_reaches(cs[i], p, radius);
        let a = cs[i].cell_x - cx + 1;
        let b = cs[i].cell_y - cy + 1;
        let ki = 3 * b + a;
        assert(ki % 3 == a && ki / 3 == b) by {
            vstd::arithmetic::div_mod::lemma_fundamental_div_mod_converse(ki, 3, b, a);
        }
        assert(within_reach(cs[i], p, radius));
        assert(hit(cs, cx - 1 + ki % 3, cy - 1 + ki / 3, p, radius, i));
        lemma_first_near_found(cs, cx, cy, p, radius, 0, i, ki);
        let j = first_near(cs, cx, cy, p, radius, 0)->0;
        assert(founded_near(cs[j], cx, cy) && centre_reaches(cs[j], p, radius));
    } else {
        lemma_first_near_found(cs, cx, cy, p, radius, 0, 0, 9);
        if first_near(cs, cx, cy, p, radius, 0) is Some {
            let j = first_near(cs, cx, cy, p, radius, 0)->0;
            assert(founded_near(cs[j], cx, cy) && centre_reaches(cs[j], p, radius));
        }
    }
}

/// The number of candidates held by the clusters together.
pub open spec fn total_members(cs: Seq<CornerCluster>) -> int
    decreases cs.len(),
{
    if cs.len() == 0 {
        0
    } else {
        total_members(cs.drop_last()) + cs.last().count
    }
}

proof fn lemma_total_update(cs: Seq<CornerCluster>, i: int, c: CornerCluster)
    requires
        0 <= i < cs.len(),
    ensures
        total_members(cs.update(i, c)) == total_members(cs) - cs[i].count + c.count,
    decreases cs.len(),
{
    if i == cs.len() - 1 {
        assert(cs.update(i, c).drop_last() =~= cs.drop_last());
    } else {
        lemma_total_update(cs.drop_last(), i, c);
        assert(cs.update(i, c).drop_last() =~= cs.drop_last().update(i, c));
    }
}

proof fn lemma_first_in_cell_range(
    cs: Seq<CornerCluster>,
    nx: int,
    ny: int,
    p: (u32, u32),
    radius: u32,
    i: int,
)
    ensures
        first_in_cell(cs, nx, ny, p, radius, i) matches Some(j) ==> 0 <= j < cs.len(),
    decreases cs.len() - i,
{
    if 0 <= i < cs.len() && !hit(cs, nx, ny, p, radius, i) {
        lemma_first_in_cell_range(cs, nx, ny, p, radius, i + 1);
    }
}

proof fn lemma_first_near_range(cs: Seq<CornerCluster>, cx: int, cy: int, p: (u32, u32), radius: u32, k: int)
    ensures
        first_near(cs, cx, cy, p, radius, k) matches Some(j) ==> 0 <= j < cs.len(),
    decreases 9 - k,
{
    if 0 <= k < 9 {
        lemma_first_in_cell_range(cs, cx - 1 + k % 3, cy - 1 + k / 3, p, radius, 0);
        lemma_first_near_range(cs, cx, cy, p, radius, k + 1);
    }
}

/// Merging loses no candidate and counts none twice: every cluster holds
/// at least one candidate, and the clusters' member counts add up to the
/// number of candidates.
pub proof fn lemma_merge_counts_each_candidate_once(points: Seq<(u32, u32)>, radius: u32)
    requires
        points.len() <= u32::MAX,
    ensures
        total_members(merged_clusters(points, radius)) == points.len(),
        forall|i: int|
            0 <= i < merged_clusters(points, radius).len() ==> 1 <= #[trigger] merged_clusters(
                points,
                radius,
            )[i].count <= points.len(),
    decreases points.len(),
{
    if points.len() > 0 {
        let prev = points.drop_last();
        lemma_merge_counts_each_candidate_once(prev, radius);
        let cs = merged_clusters(prev, radius);
        let p = points.last();
        let cx = cell_of(p.0, radius);
        let cy = cell_of(p.1, radius);
        lemma_first_near_range(cs, cx, cy, p, radius, 0);
        match first_near(cs, cx, cy, p, radius, 0) {
            Some(j) => {
                assert(1 <= cs[j].count <= prev.len());
                lemma_total_update(cs, j, joined(cs[j], p));
            },
            None => {
                assert(cs.push(founded(p, radius)).drop_last() =~= cs);
            },
        }
    }
}

} // verus!
