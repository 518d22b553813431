use vstd::prelude::*;
use vstd::relations::{sorted_by, total_ordering};
use crate::ball_detector::BallDetection;

verus! {

/// The ball seen by one camera in one frame.
#[derive(Clone, Copy)]
pub struct FrameDetection<T> {
    pub frame_index: u32,
    pub timestamp: T,
    pub detection: BallDetection,
}

/// The ball seen by both cameras in the same frame; the timestamp is the
/// left camera's.
#[derive(Clone, Copy)]
pub struct DetectionPair<T> {
    pub frame_index: u32,
    pub timestamp: T,
    pub left: BallDetection,
    pub right: BallDetection,
}

/// The order in which diameters are ranked.
pub open spec fn diameter_le(a: u64, b: u64) -> bool {
    a <= b
}

proof fn lemma_diameter_le_total()
    ensures
        total_ordering(|a: u64, b: u64| diameter_le(a, b)),
{
}

/// Sorts `v` in ascending order.
fn sort_ascending(v: &Vec<u64>) -> (r: Vec<u64>)
    ensures
        r@ == v@.sort_by(|a: u64, b: u64| diameter_le(a, b)),
{
    let ghost leq = |a: u64, b: u64| diameter_le(a, b);
    let mut out: Vec<u64> = Vec::new();
    let mut i: usize = 0;
    proof {
        assert(v@.take(0) =~= out@);
    }
    while i < v.len()
        invariant
            leq == (|a: u64, b: u64| diameter_le(a, b)),
            i <= v@.len(),
            sorted_by(out@, leq),
            out@.to_multiset() == v@.take(i as int).to_multiset(),
        decreases v@.len() - i,
    {
        let x = v[i];
        let mut p: usize = 0;
        while p < out.len() && out[p] <= x
            invariant
                p <= out@.len(),
                forall|j: int| 0 <= j < p ==> out@[j] <= x,
            decreases out@.len() - p,
        {
            p += 1;
        }
        let ghost before = out@;
        out.insert(p, x);
        proof {
            vstd::seq_lib::to_multiset_insert(before, p as int, x);
            assert(v@.take(i + 1) =~= v@.take(i as int).push(x));
            vstd::seq_lib::to_multiset_build(v@.take(i as int), x);
            assert(out@ == before.insert(p as int, x));
            before.insert_ensures(p as int, x);
            assert forall|a: int, b: int| 0 <= a < b < out@.len() implies #[trigger] leq(
                out@[a],
                out@[b],
            ) by {
                if b < p {
                    assert(out@[a] == before[a]);
                    assert(out@[b] == before[b]);
                    assert(leq(before[a], before[b]));
                    assert(diameter_le(out@[a], out@[b]));
                } else if b == p {
                    assert(out@[a] == before[a]);
                    assert(diameter_le(out@[a], out@[b]));
                } else if a < p {
                    assert(out@[b] == before[b - 1]);
                    assert(leq(before[a], before[b - 1]));
                    assert(diameter_le(out@[a], out@[b]));
                } else if a == p {
                    assert(out@[a] == x);
                    assert(out@[b] == before[b - 1]);
                    assert(before[p as int] > x);
                    if b - 1 > p {
                        assert(leq(before[p as int], before[b - 1]));
                    }
                    assert(diameter_le(out@[a], out@[b]));
                } else {
                    assert(out@[a] == before[a - 1]);
                    assert(out@[b] == before[b - 1]);
                    assert(leq(before[a - 1], before[b - 1]));
                    assert(diameter_le(out@[a], out@[b]));
                }
            }
        }
        i += 1;
    }
    proof {
        assert(v@.take(v@.len() as int) =~= v@);
        lemma_diameter_le_total();
        v@.lemma_sort_by_ensures(leq);
        vstd::seq_lib::lemma_sorted_unique(out@, v@.sort_by(leq), leq);
    }
    out
}

/// Position in `s` of the first detection of frame `idx`, if any.
pub open spec fn first_with_index<T>(s: Seq<FrameDetection<T>>, idx: u32) -> Option<int>
    decreases s.len(),
{
    if s.len() == 0 {
        None
    } else if s[0].frame_index == idx {
        Some(0)
    } else {
        match first_with_index(s.drop_first(), idx) {
            Some(j) => Some(j + 1),
            None => None,
        }
    }
}

/// The left-camera detections, in order, that the right camera also saw
/// in the same frame, each joined with the right camera's first detection
/// of that frame.
pub open spec fn matched_pairs<T>(cam0: Seq<FrameDetection<T>>, cam1: Seq<FrameDetection<T>>) -> Seq<
    DetectionPair<T>,
>
    decreases cam0.len(),
{
    if cam0.len() == 0 {
        Seq::empty()
    } else {
        let prev = matched_pairs(cam0.drop_last(), cam1);
        let d = cam0.last();
        match first_with_index(cam1, d.frame_index) {
            Some(j) => prev.push(
                DetectionPair {
                    frame_index: d.frame_index,
                    timestamp: d.timestamp,
                    left: d.detection,
                    right: cam1[j].detection,
                },
            ),
            None => prev,
        }
    }
}

proof fn lemma_first_with_index_found<T>(s: Seq<FrameDetection<T>>, idx: u32, k: int)
    requires
        0 <= k < s.len(),
        s[k].frame_index == idx,
        forall|j: int| 0 <= j < k ==> s[j].frame_index != idx,
    ensures
        first_with_index(s, idx) == Some(k),
    decreases k,
{
    if k > 0 {
        lemma_first_with_index_found(s.drop_first(), idx, k - 1);
    }
}

proof fn lemma_first_with_index_none<T>(s: Seq<FrameDetection<T>>, idx: u32)
    requires
        forall|j: int| 0 <= j < s.len() ==> s[j].frame_index != idx,
    ensures
        first_with_index(s, idx) is None,
    decreases s.len(),
{
    if s.len() > 0 {
        lemma_first_with_index_none(s.drop_first(), idx);
    }
}

/// Joins the two cameras' detections frame by frame: for each left-camera
/// detection, in order, the right camera's first detection of the same frame.
pub fn pair_detections<T: Copy>(cam0: &Vec<FrameDetection<T>>, cam1: &Vec<FrameDetection<T>>) -> (r:
    Vec<DetectionPair<T>>)
    ensures
        r@ == matched_pairs(cam0@, cam1@),
{
    let mut out: Vec<DetectionPair<T>> = Vec::new();
    let mut i: usize = 0;
    while i < cam0.len()
        invariant
            i <= cam0@.len(),
            out@ == matched_pairs(cam0@.take(i as int), cam1@),
        decreases cam0@.len() - i,
    {
        let d = cam0[i];
        let mut j: usize = 0;
        while j < cam1.len() && cam1[j].frame_index != d.frame_index
            invariant
                j <= cam1@.len(),
                forall|k: int| 0 <= k < j ==> cam1@[k].frame_index != d.frame_index,
            decreases cam1@.len() - j,
        {
            j += 1;
        }
        let found = j < cam1.len();
        proof {
            assert(cam0@.take(i + 1).drop_last() =~= cam0@.take(i as int));
        }
        if found {
            proof {
                lemma_first_with_index_found(cam1@, d.frame_index, j as int);
            }
            out.push(
                DetectionPair {
                    frame_index: d.frame_index,
                    timestamp: d.timestamp,
                    left: d.detection,
                    right: cam1[j].detection,
                },
            );
        } else {
            proof {
                lemma_first_with_index_none(cam1@, d.frame_index);
            }
        }
        i += 1;
    }
    proof {
        assert(cam0@.take(cam0@.len() as int) =~= cam0@);
    }
    out
}

/// The ball diameters of a sequence of pairs, left then right for each pair.
pub open spec fn diameters<T>(s: Seq<DetectionPair<T>>) -> Seq<u64> {
    Seq::new(
        2 * s.len(),
        |i: int|
            if i % 2 == 0 {
                s[i / 2].left.diameter() as u64
            } else {
                s[i / 2].right.diameter() as u64
            },
    )
}

/// The median ball diameter: the upper middle of all left and right
/// diameters in ascending order.
pub open spec fn median_diameter<T>(s: Seq<DetectionPair<T>>) -> u64 {
    diameters(s).sort_by(|a: u64, b: u64| diameter_le(a, b))[s.len() as int]
}

/// Both detections of `p` have a radius of at most 2.5 times the radius
/// whose doubled value is `median` (stated on doubled radii).
pub open spec fn within_radius_bound<T>(p: DetectionPair<T>, median: u64) -> bool {
    &&& 2 * p.left.diameter() <= 5 * median
    &&& 2 * p.right.diameter() <= 5 * median
}

/// Pairs after dropping those with a ball larger than 2.5 times the median
/// size; fewer than three pairs are kept as they are.
pub open spec fn radius_filtered<T>(s: Seq<DetectionPair<T>>) -> Seq<DetectionPair<T>> {
    if s.len() < 3 {
        s
    } else {
        s.filter(|p: DetectionPair<T>| within_radius_bound(p, median_diameter(s)))
    }
}

/// The median of all ball diameters of `pairs`.
fn compute_median_diameter<T: Copy>(pairs: &Vec<DetectionPair<T>>) -> (m: u64)
    requires
        pairs@.len() >= 1,
    ensures
        m == median_diameter(pairs@),
{
    let mut d: Vec<u64> = Vec::new();
    let mut i: usize = 0;
    while i < pairs.len()
        invariant
            i <= pairs@.len(),
            d@.len() == 2 * i,
            forall|k: int|
                0 <= k < 2 * i ==> #[trigger] d@[k] == diameters(pairs@)[k],
        decreases pairs@.len() - i,
    {
        let p = pairs[i];
        d.push(p.left.radius_doubled());
        d.push(p.right.radius_doubled());
        i += 1;
    }
    proof {
        assert(d@ =~= diameters(pairs@));
    }
    let sorted = sort_ascending(&d);
    proof {
        let leq = |a: u64, b: u64| diameter_le(a, b);
        lemma_diameter_le_total();
        d@.lemma_sort_by_ensures(leq);
        vstd::seq_lib::to_multiset_len(d@);
        vstd::seq_lib::to_multiset_len(d@.sort_by(leq));
    }
    sorted[pairs.len()]
}

/// Drops pairs in which either camera saw a ball more than 2.5 times the
/// median size (a reflection or a merged blob rather than the ball). With
/// fewer than three pairs there is no reliable median and nothing is dropped.
pub fn filter_radius_outliers<T: Copy>(pairs: Vec<DetectionPair<T>>) -> (r: Vec<DetectionPair<T>>)
    ensures
        r@ == radius_filtered(pairs@),
{
    if pairs.len() < 3 {
        return pairs;
    }
    let median = compute_median_diameter(&pairs);
    let ghost pred = |p: DetectionPair<T>| within_radius_bound(p, median_diameter(pairs@));
    let mut out: Vec<DetectionPair<T>> = Vec::new();
    let mut i: usize = 0;
    while i < pairs.len()
        invariant
            pred == (|p: DetectionPair<T>| within_radius_bound(p, median_diameter(pairs@))),
            median == median_diameter(pairs@),
            i <= pairs@.len(),
            out@ == pairs@.take(i as int).filter(pred),
        decreases pairs@.len() - i,
    {
        let p = pairs[i];
        let dl = p.left.radius_doubled();
        let dr = p.right.radius_doubled();
        proof {
            assert(pairs@.take(i + 1) =~= pairs@.take(i as int).push(p));
            pairs@.take(i as int).lemma_filter_push(p, pred);
        }
        if 2 * dl as u128 <= 5 * median as u128 && 2 * dr as u128 <= 5 * median as u128 {
            out.push(p);
        }
        i += 1;
    }
    proof {
        assert(pairs@.take(pairs@.len() as int) =~= pairs@);
    }
    out
}

/// `|a - b|`.
pub open spec fn abs_diff(a: int, b: int) -> int {
    if a >= b {
        a - b
    } else {
        b - a
    }
}

/// The centre of `d` is more than 3 pixels away from the centre of `first`
/// along some axis. Stated exactly, by cross-multiplying the weighted
/// coordinates: the centres are compared as exact fractions, so where a
/// floating-point division would round a distance of exactly 3 up (16/3 and
/// 25/3 give 3.000000000000001), this reads it as exactly 3, not moved. A
/// ball of zero weight has no centre and never moves.
pub open spec fn moved_from(d: BallDetection, first: BallDetection) -> bool {
    let t = d.total_weight * first.total_weight;
    ||| abs_diff(d.weighted_x * first.total_weight, first.weighted_x * d.total_weight) > 3 * t
    ||| abs_diff(d.weighted_y * first.total_weight, first.weighted_y * d.total_weight) > 3 * t
}

/// Position of the first pair, from `from` on, whose left-camera ball has
/// moved away from that of the first pair; `s.len()` when none has.
pub open spec fn first_moving<T>(s: Seq<DetectionPair<T>>, from: int) -> int
    decreases s.len() - from,
{
    if from >= s.len() || from < 0 {
        s.len() as int
    } else if moved_from(s[from].left, s[0].left) {
        from
    } else {
        first_moving(s, from + 1)
    }
}

/// Pairs after dropping the leading frames in which the ball has not yet
/// moved (frames rendered before the shot). Two pairs or fewer are kept.
pub open spec fn static_start_trimmed<T>(s: Seq<DetectionPair<T>>) -> Seq<DetectionPair<T>> {
    if s.len() <= 2 {
        s
    } else {
        let k = first_moving(s, 0);
        if 0 < k < s.len() {
            s.subrange(k, s.len() as int)
        } else {
            s
        }
    }
}

/// All detections of a sequence satisfy the detector's bounds.
pub open spec fn pairs_wf<T>(s: Seq<DetectionPair<T>>) -> bool {
    forall|i: int| 0 <= i < s.len() ==> (#[trigger] s[i]).left.wf() && s[i].right.wf()
}

proof fn lemma_cross_bound(w: u64, t: u64)
    requires
        t <= 5329 * 255,
        w <= 0xffff_ffff * (5329 * 255),
    ensures
        w * t <= 0xffff_ffff * (5329 * 255) * (5329 * 255),
{
    assert(w * t <= 0xffff_ffff * (5329 * 255) * (5329 * 255)) by (nonlinear_arith)
        requires
            t <= 5329 * 255,
            w <= 0xffff_ffff * (5329 * 255),
    ;
}

proof fn lemma_weight_bound(w: u64, t: u64)
    requires
        t <= 5329 * 255,
        w <= 0xffff_ffff * t,
    ensures
        w <= 0xffff_ffff * (5329 * 255),
{
    assert(0xffff_ffff * t <= 0xffff_ffff * (5329 * 255)) by (nonlinear_arith)
        requires
            t <= 5329 * 255,
    ;
}

/// Whether the ball of `d` has moved more than 3 pixels from that of `first`.
fn has_moved(d: &BallDetection, first: &BallDetection) -> (r: bool)
    requires
        d.wf(),
        first.wf(),
    ensures
        r == moved_from(*d, *first),
{
    proof {
        lemma_weight_bound(d.weighted_x, d.total_weight);
        lemma_weight_bound(d.weighted_y, d.total_weight);
        lemma_weight_bound(first.weighted_x, first.total_weight);
        lemma_weight_bound(first.weighted_y, first.total_weight);
        lemma_cross_bound(d.weighted_x, first.total_weight);
        lemma_cross_bound(d.weighted_y, first.total_weight);
        lemma_cross_bound(first.weighted_x, d.total_weight);
        lemma_cross_bound(first.weighted_y, d.total_weight);
        lemma_cross_bound(d.total_weight as u64, first.total_weight);
    }
    let t = d.total_weight as u128 * first.total_weight as u128;
    let ax = d.weighted_x as u128 * first.total_weight as u128;
    let bx = first.weighted_x as u128 * d.total_weight as u128;
    let ay = d.weighted_y as u128 * first.total_weight as u128;
    let by = first.weighted_y as u128 * d.total_weight as u128;
    let dx = if ax >= bx {
        ax - bx
    } else {
        bx - ax
    };
    let dy = if ay >= by {
        ay - by
    } else {
        by - ay
    };
    dx > 3 * t || dy > 3 * t
}

/// Drops the leading pairs in which the left camera's ball has not moved
/// more than 3 pixels from where it was in the first pair, the centres
/// compared exactly (see `moved_from`). Two pairs or fewer are kept as they
/// are.
pub fn filter_static_start<T: Copy>(pairs: Vec<DetectionPair<T>>) -> (r: Vec<DetectionPair<T>>)
    requires
        pairs_wf(pairs@),
    ensures
        r@ == static_start_trimmed(pairs@),
{
    if pairs.len() <= 2 {
        return pairs;
    }
    let first = pairs[0].left;
    let mut k: usize = 0;
    while k < pairs.len() && !has_moved(&pairs[k].left, &first)
        invariant
            pairs_wf(pairs@),
            first == pairs@[0].left,
            k <= pairs@.len(),
            first_moving(pairs@, 0) == first_moving(pairs@, k as int),
        decreases pairs@.len() - k,
    {
        proof {
            assert(pairs@[k as int].left.wf());
        }
        k += 1;
    }
    proof {
        if k < pairs@.len() {
            assert(pairs@[k as int].left.wf());
        }
    }
    if k > 0 && k < pairs.len() {
        let mut v = pairs;
        let tail = v.split_off(k);
        tail
    } else {
        pairs
    }
}

/// Largest step between consecutive frame indices within one flight.
pub const MAX_FRAME_GAP: u32 = 3;

/// The frame indices never decrease.
pub open spec fn indices_nondecreasing<T>(s: Seq<DetectionPair<T>>) -> bool {
    forall|i: int| 1 <= i < s.len() ==> s[i - 1].frame_index <= #[trigger] s[i].frame_index
}

/// Pair `i` follows pair `i - 1` within `MAX_FRAME_GAP` frames.
pub open spec fn follows<T>(s: Seq<DetectionPair<T>>, i: int) -> bool {
    s[i].frame_index - s[i - 1].frame_index <= MAX_FRAME_GAP
}

/// Pairs `a..b` (nonempty) form an unbroken run: each follows the previous
/// within `MAX_FRAME_GAP` frames.
pub open spec fn is_run<T>(s: Seq<DetectionPair<T>>, a: int, b: int) -> bool {
    &&& 0 <= a < b <= s.len()
    &&& forall|i: int| a < i < b ==> #[trigger] follows(s, i)
}

/// Pairs `a..b` are the flight: a run no shorter than any other run, and the
/// earliest of the longest.
pub open spec fn is_flight<T>(s: Seq<DetectionPair<T>>, a: int, b: int) -> bool {
    &&& is_run(s, a, b)
    &&& forall|c: int, d: int| #[trigger] is_run(s, c, d) ==> d - c <= b - a
    &&& forall|c: int| #[trigger] is_run(s, c, c + (b - a)) ==> a <= c
}

/// A run that starts before a break at `cs` ends by `cs`.
proof fn lemma_run_before_break<T>(s: Seq<DetectionPair<T>>, c: int, d: int, cs: int)
    requires
        is_run(s, c, d),
        c < cs,
        0 < cs < s.len(),
        !follows(s, cs),
    ensures
        d <= cs,
{
    if d > cs {
        assert(follows(s, cs));
    }
}

/// Keeps the flight of the ball: the longest unbroken run of pairs whose
/// frame indices step by at most `MAX_FRAME_GAP`, the earliest one when
/// several are equally long. A single pair or none is kept as it is.
pub fn filter_flight_detections<T: Copy>(pairs: Vec<DetectionPair<T>>) -> (r: Vec<
    DetectionPair<T>,
>)
    requires
        indices_nondecreasing(pairs@),
    ensures
        pairs@.len() <= 1 ==> r@ == pairs@,
        pairs@.len() > 1 ==> exists|a: int, b: int|
            is_flight(pairs@, a, b) && r@ == pairs@.subrange(a, b),
{
    let n = pairs.len();
    if n <= 1 {
        return pairs;
    }
    let ghost s = pairs@;
    let mut best_start: usize = 0;
    let mut best_len: usize = 1;
    let mut cur_start: usize = 0;
    let mut cur_len: usize = 1;
    let mut i: usize = 1;
    while i < n
        invariant
            s == pairs@,
            n == s.len(),
            indices_nondecreasing(s),
            1 <= i <= n,
            cur_start < i,
            cur_len == i - cur_start,
            is_run(s, cur_start as int, i as int),
            cur_start > 0 ==> !follows(s, cur_start as int),
            best_len >= 1,
            best_start <= cur_start,
            is_run(s, best_start as int, best_start + best_len),
            best_start + best_len <= cur_start || (best_start == 0 && best_len == 1),
            forall|c: int, d: int|
                #[trigger] is_run(s, c, d) && c < cur_start ==> d - c <= best_len,
            forall|c: int|
                #[trigger] is_run(s, c, c + best_len) && c < cur_start ==> best_start <= c,
        decreases n - i,
    {
        proof {
            assert(s[i - 1].frame_index <= s[i as int].frame_index);
        }
        if pairs[i].frame_index - pairs[i - 1].frame_index <= MAX_FRAME_GAP {
            cur_len += 1;
            proof {
                assert forall|c: int, d: int| #[trigger]
                    is_run(s, c, d) && c < cur_start implies d - c <= best_len by {
                    if cur_start > 0 {
                        lemma_run_before_break(s, c, d, cur_start as int);
                    }
                }
            }
        } else {
            let ghost old_start = cur_start as int;
            let ghost old_best = best_len as int;
            let ghost old_best_start = best_start as int;
            proof {
                assert forall|c: int, d: int| #[trigger]
                    is_run(s, c, d) && old_start <= c < i implies d <= i by {
                    if d > i {
                        assert(follows(s, i as int));
                    }
                }
            }
            if cur_len > best_len {
                best_start = cur_start;
                best_len = cur_len;
            }
            cur_start = i;
            cur_len = 1;
            proof {
                assert forall|c: int, d: int| #[trigger]
                    is_run(s, c, d) && c < cur_start implies d - c <= best_len by {
                    if c < old_start {
                        lemma_run_before_break(s, c, d, old_start);
                    } else {
                        assert(d <= i);
                    }
                }
                assert forall|c: int| #[trigger]
                    is_run(s, c, c + best_len) && c < cur_start implies best_start <= c by {
                    if c < old_start {
                        if best_len > old_best {
                            assert(c + best_len - c <= old_best);
                        }
                    } else {
                        assert(c + best_len <= i);
                    }
                }
            }
        }
        i += 1;
    }
    let ghost old_best = best_len as int;
    if cur_len > best_len {
        best_start = cur_start;
        best_len = cur_len;
    }
    proof {
        assert forall|c: int, d: int| #[trigger] is_run(s, c, d) implies d - c <= best_len by {
            if c < cur_start {
            } else {
                assert(d <= n);
            }
        }
        assert forall|c: int| #[trigger] is_run(s, c, c + best_len) implies best_start <= c by {
            if c < cur_start {
                if best_len > old_best {
                    assert(c + best_len - c <= old_best);
                }
            }
        }
        assert(is_flight(s, best_start as int, best_start + best_len));
    }
    let mut v = pairs;
    let mut tail = v.split_off(best_start);
    tail.truncate(best_len);
    proof {
        assert(tail@ =~= s.subrange(best_start as int, best_start + best_len));
    }
    tail
}

/// The flight of a sequence of pairs is unique.
pub proof fn lemma_flight_unique<T>(s: Seq<DetectionPair<T>>, a: int, b: int, c: int, d: int)
    requires
        is_flight(s, a, b),
        is_flight(s, c, d),
    ensures
        a == c,
        b == d,
{
    assert(is_run(s, c, d));
    assert(is_run(s, a, b));
    assert(d - c <= b - a);
    assert(b - a <= d - c);
    assert(is_run(s, c, c + (b - a)));
    assert(is_run(s, a, a + (d - c)));
}

/// The flight is one unbroken run, so filtering it again keeps all of it:
/// the whole of the kept pairs is their own flight.
pub proof fn lemma_flight_idempotent<T>(s: Seq<DetectionPair<T>>, a: int, b: int)
    requires
        is_flight(s, a, b),
    ensures
        is_flight(s.subrange(a, b), 0, b - a),
{
    let t = s.subrange(a, b);
    assert forall|i: int| 0 < i < b - a implies #[trigger] follows(t, i) by {
        assert(follows(s, a + i));
    }
    assert forall|c: int, d: int| #[trigger] is_run(t, c, d) implies d - c <= b - a by {
    }
    assert forall|c: int| #[trigger] is_run(t, c, c + (b - a)) implies 0 <= c by {
    }
}

/// Every pair kept by the size filter has both balls within 2.5 times the
/// median size, and no pair is added.
pub proof fn lemma_radius_filter_bound<T>(s: Seq<DetectionPair<T>>)
    requires
        s.len() >= 3,
    ensures
        forall|i: int|
            0 <= i < radius_filtered(s).len() ==> within_radius_bound(
                #[trigger] radius_filtered(s)[i],
                median_diameter(s),
            ),
        radius_filtered(s).len() <= s.len(),
{
    broadcast use vstd::seq_lib::group_filter_ensures;
    let pred = |p: DetectionPair<T>| within_radius_bound(p, median_diameter(s));
    assert(s.filter(pred).len() <= s.len());
    assert forall|i: int| 0 <= i < s.filter(pred).len() implies pred(#[trigger] s.filter(pred)[i]) by {
        assert(s.filter(pred).contains(s.filter(pred)[i]));
    }
}

/// With three pairs or more, the size filter keeps exactly the pairs, in
/// order, in which both the left and the right ball have a diameter of at
/// most 2.5 times the median diameter.
pub proof fn lemma_radius_filter_keeps_both_within<T>(s: Seq<DetectionPair<T>>)
    requires
        s.len() >= 3,
    ensures
        radius_filtered(s) == s.filter(
            |p: DetectionPair<T>|
                2 * p.left.diameter() <= 5 * median_diameter(s) && 2 * p.right.diameter() <= 5
                    * median_diameter(s),
        ),
{
    let m = median_diameter(s);
    let a = |p: DetectionPair<T>| within_radius_bound(p, m);
    let b = |p: DetectionPair<T>| 2 * p.left.diameter() <= 5 * m && 2 * p.right.diameter() <= 5 * m;
    assert(a =~= b);
}

/// Trimming the static start keeps a suffix; when it drops anything, the
/// first kept pair is the first whose ball moved and every dropped pair
/// stood still.
pub proof fn lemma_static_trim_suffix<T>(s: Seq<DetectionPair<T>>)
    requires
        s.len() > 2,
    ensures
        ({
            let k = first_moving(s, 0);
            &&& 0 <= k <= s.len()
            &&& forall|j: int| 0 <= j < k ==> !moved_from(#[trigger] s[j].left, s[0].left)
            &&& k < s.len() ==> moved_from(s[k].left, s[0].left)
            &&& static_start_trimmed(s) == if 0 < k < s.len() {
                s.subrange(k, s.len() as int)
            } else {
                s
            }
        }),
{
    lemma_first_moving(s, 0);
}

/// Trimming the static start drops exactly the leading pairs whose left
/// ball centre lies within 3 pixels of the first pair's along both axes
/// (centres `weighted / total_weight`, compared exactly by
/// cross-multiplying): the kept pairs start at the first pair whose centre
/// is more than 3 pixels away horizontally or vertically, and all pairs are
/// kept when there is none.
pub proof fn lemma_static_trim_first_moved<T>(s: Seq<DetectionPair<T>>)
    requires
        s.len() > 2,
    ensures
        exists|k: int|
            #![trigger s.subrange(k, s.len() as int)]
            1 <= k <= s.len() && (forall|j: int|
                0 <= j < k ==> abs_diff(
                    (#[trigger] s[j]).left.weighted_x * s[0].left.total_weight,
                    s[0].left.weighted_x * s[j].left.total_weight,
                ) <= 3 * (s[j].left.total_weight * s[0].left.total_weight) && abs_diff(
                    s[j].left.weighted_y * s[0].left.total_weight,
                    s[0].left.weighted_y * s[j].left.total_weight,
                ) <= 3 * (s[j].left.total_weight * s[0].left.total_weight)) && (k < s.len() ==> (
            abs_diff(
                s[k].left.weighted_x * s[0].left.total_weight,
                s[0].left.weighted_x * s[k].left.total_weight,
            ) > 3 * (s[k].left.total_weight * s[0].left.total_weight) || abs_diff(
                s[k].left.weighted_y * s[0].left.total_weight,
                s[0].left.weighted_y * s[k].left.total_weight,
            ) > 3 * (s[k].left.total_weight * s[0].left.total_weight))) && static_start_trimmed(s)
                == if k < s.len() {
                s.subrange(k, s.len() as int)
            } else {
                s
            },
{
    lemma_first_moving(s, 0);
    let k = first_moving(s, 0);
    assert(!moved_from(s[0].left, s[0].left));
    assert(1 <= k);
    assert(s.subrange(k, s.len() as int) == s.subrange(k, s.len() as int));
}

proof fn lemma_first_moving<T>(s: Seq<DetectionPair<T>>, from: int)
    requires
        0 <= from <= s.len(),
    ensures
        from <= first_moving(s, from) <= s.len(),
        forall|j: int| from <= j < first_moving(s, from) ==> !moved_from(#[trigger] s[j].left, s[0].left),
        first_moving(s, from) < s.len() ==> moved_from(s[first_moving(s, from)].left, s[0].left),
    decreases s.len() - from,
{
    if from < s.len() && !moved_from(s[from].left, s[0].left) {
        lemma_first_moving(s, from + 1);
    }
}

/// Each matched pair joins the two cameras' detections of one frame: the
/// left one comes from the left camera and the right one from the right
/// camera, both with the pair's frame index.
pub proof fn lemma_matched_same_frame<T>(cam0: Seq<FrameDetection<T>>, cam1: Seq<FrameDetection<T>>, i: int)
    requires
        0 <= i < matched_pairs(cam0, cam1).len(),
    ensures
        exists|j: int, k: int|
            0 <= j < cam0.len() && 0 <= k < cam1.len() && (#[trigger] cam0[j]).frame_index
                == matched_pairs(cam0, cam1)[i].frame_index && (#[trigger] cam1[k]).frame_index
                == matched_pairs(cam0, cam1)[i].frame_index && cam0[j].detection == matched_pairs(
                cam0,
                cam1,
            )[i].left && cam1[k].detection == matched_pairs(cam0, cam1)[i].right,
    decreases cam0.len(),
{
    let c = cam0.drop_last();
    let prev = matched_pairs(c, cam1);
    let m = matched_pairs(cam0, cam1);
    lemma_first_with_index_range(cam1, cam0.last().frame_index);
    if i < prev.len() {
        lemma_matched_same_frame(c, cam1, i);
        let (j, k) = choose|j: int, k: int|
            0 <= j < c.len() && 0 <= k < cam1.len() && (#[trigger] c[j]).frame_index
                == prev[i].frame_index && (#[trigger] cam1[k]).frame_index == prev[i].frame_index
                && c[j].detection == prev[i].left && cam1[k].detection == prev[i].right;
        assert(m[i] == prev[i]);
        assert(cam0[j] == c[j]);
    } else {
        let k = first_with_index(cam1, cam0.last().frame_index)->0;
        assert(cam0[cam0.len() - 1] == cam0.last());
        assert(cam1[k].frame_index == m[i].frame_index);
    }
}

/// Every detection of a camera satisfies the detector's bounds.
pub open spec fn detections_wf<T>(s: Seq<FrameDetection<T>>) -> bool {
    forall|i: int| 0 <= i < s.len() ==> (#[trigger] s[i]).detection.wf()
}

/// The frame indices of a camera's detections never decrease.
pub open spec fn detection_indices_nondecreasing<T>(s: Seq<FrameDetection<T>>) -> bool {
    forall|i: int| 1 <= i < s.len() ==> s[i - 1].frame_index <= #[trigger] s[i].frame_index
}

proof fn lemma_filter_keeps<T>(
    s: Seq<DetectionPair<T>>,
    pred: spec_fn(DetectionPair<T>) -> bool,
    prop: spec_fn(DetectionPair<T>) -> bool,
)
    requires
        forall|i: int| 0 <= i < s.len() ==> #[trigger] prop(s[i]),
    ensures
        forall|i: int| 0 <= i < s.filter(pred).len() ==> #[trigger] prop(s.filter(pred)[i]),
    decreases s.len(),
{
    reveal(Seq::filter);
    if s.len() > 0 {
        let d = s.drop_last();
        assert forall|i: int| 0 <= i < d.len() implies #[trigger] prop(d[i]) by {
            assert(d[i] == s[i]);
        }
        lemma_filter_keeps(d, pred, prop);
        let sub = d.filter(pred);
        let f = s.filter(pred);
        assert(prop(s[s.len() - 1]));
        assert forall|i: int| 0 <= i < f.len() implies #[trigger] prop(f[i]) by {
            if i < sub.len() {
                assert(f[i] == sub[i]);
            } else {
                assert(f[i] == s.last());
            }
        }
    }
}

proof fn lemma_nondecreasing_pair<T>(s: Seq<DetectionPair<T>>, i: int, j: int)
    requires
        indices_nondecreasing(s),
        0 <= i <= j < s.len(),
    ensures
        s[i].frame_index <= s[j].frame_index,
    decreases j - i,
{
    if i < j {
        lemma_nondecreasing_pair(s, i, j - 1);
        assert(s[j - 1].frame_index <= s[j].frame_index);
    }
}

proof fn lemma_filter_nondecreasing<T>(s: Seq<DetectionPair<T>>, pred: spec_fn(DetectionPair<T>) -> bool)
    requires
        indices_nondecreasing(s),
    ensures
        indices_nondecreasing(s.filter(pred)),
    decreases s.len(),
{
    reveal(Seq::filter);
    if s.len() > 0 {
        let last = s.last();
        let d = s.drop_last();
        assert forall|i: int| 1 <= i < d.len() implies d[i - 1].frame_index <= #[trigger] d[i].frame_index by {
            assert(d[i] == s[i] && d[i - 1] == s[i - 1]);
        }
        lemma_filter_nondecreasing(d, pred);
        let bounded = |p: DetectionPair<T>| p.frame_index <= last.frame_index;
        assert forall|i: int| 0 <= i < d.len() implies #[trigger] bounded(d[i]) by {
            lemma_nondecreasing_pair(s, i, s.len() - 1);
        }
        lemma_filter_keeps(d, pred, bounded);
        let sub = d.filter(pred);
        let f = s.filter(pred);
        if pred(last) {
            assert forall|i: int| 1 <= i < f.len() implies f[i - 1].frame_index <= #[trigger] f[i].frame_index by {
                if i < sub.len() {
                    assert(f[i] == sub[i] && f[i - 1] == sub[i - 1]);
                } else {
                    assert(f[i] == last);
                    assert(f[i - 1] == sub[i - 1]);
                    assert(bounded(sub[i - 1]));
                }
            }
        }
    }
}

proof fn lemma_matched_props<T>(cam0: Seq<FrameDetection<T>>, cam1: Seq<FrameDetection<T>>, bound: u32)
    requires
        forall|i: int| 0 <= i < cam0.len() ==> (#[trigger] cam0[i]).frame_index <= bound,
    ensures
        forall|i: int|
            0 <= i < matched_pairs(cam0, cam1).len() ==> (#[trigger] matched_pairs(
                cam0,
                cam1,
            )[i]).frame_index <= bound,
        detections_wf(cam0) && detections_wf(cam1) ==> pairs_wf(matched_pairs(cam0, cam1)),
        detection_indices_nondecreasing(cam0) ==> indices_nondecreasing(matched_pairs(cam0, cam1)),
    decreases cam0.len(),
{
    if cam0.len() > 0 {
        let c = cam0.drop_last();
        let last = cam0.last();
        assert forall|i: int| 0 <= i < c.len() implies (#[trigger] c[i]).frame_index <= bound by {
            assert(c[i] == cam0[i]);
        }
        lemma_matched_props(c, cam1, bound);
        let prev = matched_pairs(c, cam1);
        let m = matched_pairs(cam0, cam1);
        lemma_first_with_index_range(cam1, last.frame_index);
        if detections_wf(cam0) && detections_wf(cam1) {
            assert forall|i: int| 0 <= i < c.len() implies (#[trigger] c[i]).detection.wf() by {
                assert(c[i] == cam0[i]);
            }
            assert(last.detection.wf());
            assert forall|i: int| 0 <= i < m.len() implies (#[trigger] m[i]).left.wf() && m[i].right.wf() by {
                if i < prev.len() {
                    assert(m[i] == prev[i]);
                }
            }
        }
        if detection_indices_nondecreasing(cam0) {
            assert forall|i: int| 0 <= i < c.len() implies (#[trigger] c[i]).frame_index <= last.frame_index by {
                lemma_detections_nondecreasing_pair(cam0, i, cam0.len() - 1);
            }
            assert forall|i: int| 1 <= i < c.len() implies c[i - 1].frame_index <= #[trigger] c[i].frame_index by {
                assert(c[i] == cam0[i] && c[i - 1] == cam0[i - 1]);
            }
            lemma_matched_props(c, cam1, last.frame_index);
            assert forall|i: int| 1 <= i < m.len() implies m[i - 1].frame_index <= #[trigger] m[i].frame_index by {
                if i < prev.len() {
                    assert(m[i] == prev[i] && m[i - 1] == prev[i - 1]);
                } else {
                    assert(m[i - 1] == prev[i - 1]);
                }
            }
        }
        assert forall|i: int| 0 <= i < m.len() implies (#[trigger] m[i]).frame_index <= bound by {
            if i < prev.len() {
                assert(m[i] == prev[i]);
            }
        }
    }
}

proof fn lemma_detections_nondecreasing_pair<T>(s: Seq<FrameDetection<T>>, i: int, j: int)
    requires
        detection_indices_nondecreasing(s),
        0 <= i <= j < s.len(),
    ensures
        s[i].frame_index <= s[j].frame_index,
    decreases j - i,
{
    if i < j {
        lemma_detections_nondecreasing_pair(s, i, j - 1);
        assert(s[j - 1].frame_index <= s[j].frame_index);
    }
}

proof fn lemma_first_with_index_range<T>(s: Seq<FrameDetection<T>>, idx: u32)
    ensures
        first_with_index(s, idx) matches Some(j) ==> 0 <= j < s.len() && s[j].frame_index == idx,
    decreases s.len(),
{
    if s.len() > 0 {
        lemma_first_with_index_range(s.drop_first(), idx);
    }
}

/// Why no launch can be estimated from a shot.
#[derive(Debug, Clone, Copy, PartialEq, Eq)]
pub enum LaunchInputError {
    /// One of the cameras saw the ball in fewer than two frames.
    NotEnoughDetections,
    /// Fewer than two frames of the flight were seen by both cameras.
    NotEnoughMatched,
}

impl LaunchInputError {
    /// The error as a shot's report gives it.
    pub fn message(&self) -> (r: &'static str)
        ensures
            *self == LaunchInputError::NotEnoughDetections ==> r@ == "Not enough ball detections"@,
            *self == LaunchInputError::NotEnoughMatched ==> r@
                == "Not enough matched detections for triangulation"@,
    {
        match self {
            LaunchInputError::NotEnoughDetections => "Not enough ball detections",
            LaunchInputError::NotEnoughMatched => "Not enough matched detections for triangulation",
        }
    }
}

/// The pairs that reach the flight filter: matched frames, without size
/// outliers, without the static start.
pub open spec fn pairs_before_flight<T>(cam0: Seq<FrameDetection<T>>, cam1: Seq<FrameDetection<T>>) -> Seq<
    DetectionPair<T>,
> {
    static_start_trimmed(radius_filtered(matched_pairs(cam0, cam1)))
}

/// The inputs on which the selection runs to its end: when both cameras have
/// two detections, the pairs reaching the flight filter are in frame order.
pub open spec fn launch_selection_defined<T>(cam0: Seq<FrameDetection<T>>, cam1: Seq<FrameDetection<T>>) -> bool {
    cam0.len() >= 2 && cam1.len() >= 2 ==> indices_nondecreasing(pairs_before_flight(cam0, cam1))
}

/// The filters only drop pairs: every pair that reaches the flight filter,
/// and so every pair the selection returns, is one of the matched pairs.
pub proof fn lemma_selected_pairs_matched<T>(cam0: Seq<FrameDetection<T>>, cam1: Seq<FrameDetection<T>>, i: int)
    requires
        0 <= i < pairs_before_flight(cam0, cam1).len(),
    ensures
        matched_pairs(cam0, cam1).contains(pairs_before_flight(cam0, cam1)[i]),
{
    broadcast use vstd::seq_lib::group_filter_ensures;
    let m = matched_pairs(cam0, cam1);
    let r = radius_filtered(m);
    let t = static_start_trimmed(r);
    let j = if r.len() > 2 && 0 < first_moving(r, 0) < r.len() {
        i + first_moving(r, 0)
    } else {
        i
    };
    assert(t[i] == r[j]);
    assert(r.contains(r[j]));
    if m.len() >= 3 {
        let pred = |p: DetectionPair<T>| within_radius_bound(p, median_diameter(m));
        assert(m.filter(pred).contains(r[j]));
        m.lemma_filter_contains_rev(pred, r[j]);
    } else {
        assert(m[j] == r[j]);
        assert(m.contains(m[j]));
    }
}

/// Detections delivered in frame order always satisfy the selection's
/// ordering condition.
pub proof fn lemma_ordered_detections_select<T>(cam0: Seq<FrameDetection<T>>, cam1: Seq<FrameDetection<T>>)
    requires
        detection_indices_nondecreasing(cam0),
    ensures
        launch_selection_defined(cam0, cam1),
{
    lemma_matched_props(cam0, cam1, 0xffff_ffff);
    let m = matched_pairs(cam0, cam1);
    if m.len() >= 3 {
        lemma_filter_nondecreasing(
            m,
            |p: DetectionPair<T>| within_radius_bound(p, median_diameter(m)),
        );
    }
    let r = radius_filtered(m);
    assert(indices_nondecreasing(r));
    let t = static_start_trimmed(r);
    assert forall|i: int| 1 <= i < t.len() implies t[i - 1].frame_index <= #[trigger] t[i].frame_index by {
        if r.len() > 2 {
            let k = first_moving(r, 0);
            if 0 < k < r.len() {
                assert(t[i] == r[i + k]);
                assert(t[i - 1] == r[i - 1 + k]);
            }
        }
    }
}

/// Chooses the frames that the launch estimate is computed from: the frames
/// both cameras saw the ball in, without size outliers, without the static
/// start, restricted to the flight. Each camera must have seen the ball at
/// least twice, and the flight must span at least two frames.
pub fn select_launch_pairs<T: Copy>(cam0: &Vec<FrameDetection<T>>, cam1: &Vec<FrameDetection<T>>) -> (r:
    Result<Vec<DetectionPair<T>>, LaunchInputError>)
    requires
        detections_wf(cam0@),
        detections_wf(cam1@),
        launch_selection_defined(cam0@, cam1@),
    ensures
        cam0@.len() < 2 || cam1@.len() < 2 ==> r == Err::<Vec<DetectionPair<T>>, LaunchInputError>(
            LaunchInputError::NotEnoughDetections,
        ),
        cam0@.len() >= 2 && cam1@.len() >= 2 ==> {
            let t = pairs_before_flight(cam0@, cam1@);
            match r {
                Ok(v) => exists|a: int, b: int|
                    is_flight(t, a, b) && v@ == t.subrange(a, b) && b - a >= 2,
                Err(e) => e == LaunchInputError::NotEnoughMatched && (t.len() <= 1 || exists|
                    a: int,
                    b: int,
                | is_flight(t, a, b) && b - a == 1),
            }
        },
{
    if cam0.len() < 2 || cam1.len() < 2 {
        return Err(LaunchInputError::NotEnoughDetections);
    }
    proof {
        lemma_matched_props(cam0@, cam1@, 0xffff_ffff);
        let m = matched_pairs(cam0@, cam1@);
        if m.len() >= 3 {
            let prop = |p: DetectionPair<T>| p.left.wf() && p.right.wf();
            assert forall|i: int| 0 <= i < m.len() implies #[trigger] prop(m[i]) by {
                assert(m[i].left.wf() && m[i].right.wf());
            }
            lemma_filter_keeps(
                m,
                |p: DetectionPair<T>| within_radius_bound(p, median_diameter(m)),
                prop,
            );
            let f = radius_filtered(m);
            assert forall|i: int| 0 <= i < f.len() implies (#[trigger] f[i]).left.wf() && f[i].right.wf() by {
                assert(prop(f[i]));
            }
        }
    }
    let pairs = pair_detections(cam0, cam1);
    let pairs = filter_radius_outliers(pairs);
    let pairs = filter_static_start(pairs);
    let ghost t = pairs@;
    let pairs = filter_flight_detections(pairs);
    if pairs.len() >= 2 {
        Ok(pairs)
    } else {
        Err(LaunchInputError::NotEnoughMatched)
    }
}

} // verus!
