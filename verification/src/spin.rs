//! Integer bookkeeping of the spin detector's feature extraction.

use vstd::prelude::*;

verus! {

/// Feature pixels merged into one feature: the sums of their coordinates and
/// their number. Its centre is `(sum_x / count, sum_y / count)`.
#[derive(Debug, Clone, Copy, PartialEq, Eq)]
pub struct PointCluster {
    pub sum_x: u64,
    pub sum_y: u64,
    pub count: u64,
}

/// `q` is closer to `p` than the merge limit: its squared distance is below
/// `limit`.
pub open spec fn close(p: (u32, u32), q: (u32, u32), limit: u64) -> bool {
    (q.0 - p.0) * (q.0 - p.0) + (q.1 - p.1) * (q.1 - p.1) < limit
}

/// Which points belong to a cluster once the points before `i` have been
/// visited: a visited point not yet taken leads a cluster and takes every
/// later point close to it.
pub open spec fn taken_before(pts: Seq<(u32, u32)>, limit: u64, i: int) -> Seq<bool>
    decreases i,
{
    if i <= 0 {
        Seq::new(pts.len(), |j: int| false)
    } else {
        let t = taken_before(pts, limit, i - 1);
        let k = i - 1;
        if t[k] {
            t
        } else {
            Seq::new(pts.len(), |j: int| t[j] || j == k || (j > k && close(pts[k], pts[j], limit)))
        }
    }
}

/// Point `j` joins the cluster that point `k` leads, given the points taken
/// before `k` was visited.
pub open spec fn joins(pts: Seq<(u32, u32)>, limit: u64, t: Seq<bool>, k: int, j: int) -> bool {
    j > k && !t[j] && close(pts[k], pts[j], limit)
}

/// The cluster led by `k`, gathered over the points before `j`.
pub open spec fn gathered(pts: Seq<(u32, u32)>, limit: u64, t: Seq<bool>, k: int, j: int) -> PointCluster
    decreases j - k,
{
    if j <= k + 1 {
        PointCluster { sum_x: pts[k].0 as u64, sum_y: pts[k].1 as u64, count: 1 }
    } else {
        let c = gathered(pts, limit, t, k, j - 1);
        if joins(pts, limit, t, k, j - 1) {
            PointCluster {
                sum_x: (c.sum_x + pts[j - 1].0) as u64,
                sum_y: (c.sum_y + pts[j - 1].1) as u64,
                count: (c.count + 1) as u64,
            }
        } else {
            c
        }
    }
}

/// The clusters led by the points before `i`, in the order of their leaders.
pub open spec fn clusters_upto(pts: Seq<(u32, u32)>, limit: u64, i: int) -> Seq<PointCluster>
    decreases i,
{
    if i <= 0 {
        Seq::empty()
    } else {
        let prev = clusters_upto(pts, limit, i - 1);
        let t = taken_before(pts, limit, i - 1);
        if t[i - 1] {
            prev
        } else {
            prev.push(gathered(pts, limit, t, i - 1, pts.len() as int))
        }
    }
}

/// The greedy clusters of a sequence of points.
pub open spec fn point_clusters(pts: Seq<(u32, u32)>, limit: u64) -> Seq<PointCluster> {
    clusters_upto(pts, limit, pts.len() as int)
}

proof fn lemma_taken_len(pts: Seq<(u32, u32)>, limit: u64, i: int)
    ensures
        taken_before(pts, limit, i).len() == pts.len(),
    decreases i,
{
    if i > 0 {
        lemma_taken_len(pts, limit, i - 1);
    }
}

proof fn lemma_gathered_bounds(pts: Seq<(u32, u32)>, limit: u64, t: Seq<bool>, k: int, j: int)
    requires
        0 <= k < j <= pts.len(),
        pts.len() <= u32::MAX,
    ensures
        1 <= gathered(pts, limit, t, k, j).count <= j - k,
        gathered(pts, limit, t, k, j).sum_x <= gathered(pts, limit, t, k, j).count * 0xffff_ffff,
        gathered(pts, limit, t, k, j).sum_y <= gathered(pts, limit, t, k, j).count * 0xffff_ffff,
    decreases j - k,
{
    if j > k + 1 {
        lemma_gathered_bounds(pts, limit, t, k, j - 1);
    }
}

fn is_close(p: (u32, u32), q: (u32, u32), limit: u64) -> (r: bool)
    ensures
        r == close(p, q, limit),
{
    let dx: u128 = if q.0 >= p.0 {
        (q.0 - p.0) as u128
    } else {
        (p.0 - q.0) as u128
    };
    let dy: u128 = if q.1 >= p.1 {
        (q.1 - p.1) as u128
    } else {
        (p.1 - q.1) as u128
    };
    proof {
        assert(dx * dx <= 0xffff_ffff * 0xffff_ffff) by (nonlinear_arith)
            requires
                dx <= 0xffff_ffff,
        ;
        assert(dy * dy <= 0xffff_ffff * 0xffff_ffff) by (nonlinear_arith)
            requires
                dy <= 0xffff_ffff,
        ;
        let ax = q.0 - p.0;
        let ay = q.1 - p.1;
        assert(dx * dx == ax * ax) by (nonlinear_arith)
            requires
                dx == ax || dx == -ax,
        ;
        assert(dy * dy == ay * ay) by (nonlinear_arith)
            requires
                dy == ay || dy == -ay,
        ;
    }
    dx * dx + dy * dy < limit as u128
}

/// Greedy clustering of feature pixels: each point not yet in a cluster, in
/// order, founds one and takes every later free point whose squared
/// distance to it is below `limit`.
pub fn cluster_points(points: &Vec<(u32, u32)>, limit: u64) -> (r: Vec<PointCluster>)
    requires
        points@.len() <= u32::MAX,
    ensures
        r@ == point_clusters(points@, limit),
{
    let n = points.len();
    let ghost pts = points@;
    let mut assigned: Vec<bool> = Vec::new();
    let mut z: usize = 0;
    while z < n
        invariant
            z <= n,
            n == pts.len(),
            assigned@.len() == z,
            forall|j: int| 0 <= j < z ==> !#[trigger] assigned@[j],
        decreases n - z,
    {
        assigned.push(false);
        z += 1;
    }
    proof {
        assert(assigned@ =~= taken_before(pts, limit, 0));
    }
    let mut centroids: Vec<PointCluster> = Vec::new();
    let mut i: usize = 0;
    while i < n
        invariant
            i <= n,
            n == pts.len(),
            pts == points@,
            n <= u32::MAX,
            assigned@ == taken_before(pts, limit, i as int),
            centroids@ == clusters_upto(pts, limit, i as int),
        decreases n - i,
    {
        proof {
            lemma_taken_len(pts, limit, i as int);
        }
        if assigned[i] {
            i += 1;
            continue;
        }
        let ghost t = assigned@;
        let p = points[i];
        assigned.set(i, true);
        let mut cluster = PointCluster { sum_x: p.0 as u64, sum_y: p.1 as u64, count: 1 };
        let mut j: usize = i + 1;
        while j < n
            invariant
                i < j <= n,
                n == pts.len(),
                pts == points@,
                n <= u32::MAX,
                t.len() == n,
                !t[i as int],
                p == pts[i as int],
                assigned@.len() == n,
                forall|m: int|
                    0 <= m < n ==> #[trigger] assigned@[m] == if m < j {
                        t[m] || m == i || (m > i && close(pts[i as int], pts[m], limit))
                    } else {
                        t[m] || m == i
                    },
                cluster == gathered(pts, limit, t, i as int, j as int),
            decreases n - j,
        {
            proof {
                lemma_gathered_bounds(pts, limit, t, i as int, j as int);
                assert(cluster.count <= u32::MAX);
                assert(cluster.sum_x + 0xffff_ffff <= (cluster.count + 1) * 0xffff_ffff);
                assert((cluster.count + 1) * 0xffff_ffff <= 0x1_0000_0000 * 0xffff_ffff) by (nonlinear_arith)
                    requires
                        cluster.count <= u32::MAX,
                ;
            }
            let q = points[j];
            if !assigned[j] && is_close(p, q, limit) {
                assigned.set(j, true);
                cluster = PointCluster {
                    sum_x: cluster.sum_x + q.0 as u64,
                    sum_y: cluster.sum_y + q.1 as u64,
                    count: cluster.count + 1,
                };
            }
            j += 1;
        }
        proof {
            assert(assigned@ =~= taken_before(pts, limit, i + 1));
        }
        centroids.push(cluster);
        i += 1;
    }
    centroids
}

/// The number of feature pixels held by the clusters together.
pub open spec fn total_count(cs: Seq<PointCluster>) -> int
    decreases cs.len(),
{
    if cs.len() == 0 {
        0
    } else {
        total_count(cs.drop_last()) + cs.last().count
    }
}

/// The number of `true` entries among the first `n` of `t`.
spec fn trues(t: Seq<bool>, n: int) -> int
    decreases n,
{
    if n <= 0 {
        0
    } else {
        trues(t, n - 1) + if t[n - 1] {
            1int
        } else {
            0
        }
    }
}

/// The number of points before `n` that join the cluster led by `k`.
spec fn joined_upto(pts: Seq<(u32, u32)>, limit: u64, t: Seq<bool>, k: int, n: int) -> int
    decreases n - k,
{
    if n <= k + 1 {
        0
    } else {
        joined_upto(pts, limit, t, k, n - 1) + if joins(pts, limit, t, k, n - 1) {
            1int
        } else {
            0
        }
    }
}

proof fn lemma_gathered_count(pts: Seq<(u32, u32)>, limit: u64, t: Seq<bool>, k: int, j: int)
    requires
        0 <= k < j <= pts.len(),
        pts.len() <= u32::MAX,
    ensures
        gathered(pts, limit, t, k, j).count == 1 + joined_upto(pts, limit, t, k, j),
    decreases j - k,
{
    if j > k + 1 {
        lemma_gathered_count(pts, limit, t, k, j - 1);
        lemma_gathered_bounds(pts, limit, t, k, j - 1);
    }
}

/// Leading point `k` turns exactly `k` and the points that join it from
/// free to taken.
proof fn lemma_taken_step(pts: Seq<(u32, u32)>, limit: u64, k: int, n: int)
    requires
        0 <= k < pts.len(),
        0 <= n <= pts.len(),
        !taken_before(pts, limit, k)[k],
    ensures
        trues(taken_before(pts, limit, k + 1), n) == trues(taken_before(pts, limit, k), n) + (if n > k {
            1int
        } else {
            0
        }) + joined_upto(pts, limit, taken_before(pts, limit, k), k, n),
    decreases n,
{
    lemma_taken_len(pts, limit, k);
    if n > 0 {
        lemma_taken_step(pts, limit, k, n - 1);
    }
}

/// Once visited, a point stays taken.
proof fn lemma_visited_taken(pts: Seq<(u32, u32)>, limit: u64, i: int, m: int)
    requires
        0 <= m < i <= pts.len(),
    ensures
        taken_before(pts, limit, i)[m],
    decreases i,
{
    lemma_taken_len(pts, limit, i - 1);
    if m < i - 1 {
        lemma_visited_taken(pts, limit, i - 1, m);
    }
}

proof fn lemma_all_trues(t: Seq<bool>, n: int)
    requires
        0 <= n <= t.len(),
        forall|m: int| 0 <= m < t.len() ==> #[trigger] t[m],
    ensures
        trues(t, n) == n,
    decreases n,
{
    if n > 0 {
        lemma_all_trues(t, n - 1);
    }
}

proof fn lemma_no_trues(t: Seq<bool>, n: int)
    requires
        0 <= n <= t.len(),
        forall|m: int| 0 <= m < t.len() ==> !#[trigger] t[m],
    ensures
        trues(t, n) == 0,
    decreases n,
{
    if n > 0 {
        lemma_no_trues(t, n - 1);
    }
}

proof fn lemma_clusters_count_taken(pts: Seq<(u32, u32)>, limit: u64, i: int)
    requires
        0 <= i <= pts.len(),
        pts.len() <= u32::MAX,
    ensures
        total_count(clusters_upto(pts, limit, i)) == trues(taken_before(pts, limit, i), pts.len() as int),
    decreases i,
{
    if i == 0 {
        lemma_no_trues(taken_before(pts, limit, 0), pts.len() as int);
    } else {
        lemma_clusters_count_taken(pts, limit, i - 1);
        let t = taken_before(pts, limit, i - 1);
        lemma_taken_len(pts, limit, i - 1);
        if !t[i - 1] {
            lemma_taken_step(pts, limit, i - 1, pts.len() as int);
            lemma_gathered_count(pts, limit, t, i - 1, pts.len() as int);
            let prev = clusters_upto(pts, limit, i - 1);
            assert(prev.push(gathered(pts, limit, t, i - 1, pts.len() as int)).drop_last() =~= prev);
        }
    }
}

/// Clustering loses no feature pixel and counts none twice: the clusters'
/// pixel counts add up to the number of pixels.
pub proof fn lemma_clusters_hold_every_point_once(pts: Seq<(u32, u32)>, limit: u64)
    requires
        pts.len() <= u32::MAX,
    ensures
        total_count(point_clusters(pts, limit)) == pts.len(),
{
    let n = pts.len() as int;
    lemma_clusters_count_taken(pts, limit, n);
    let t = taken_before(pts, limit, n);
    lemma_taken_len(pts, limit, n);
    assert forall|m: int| 0 <= m < t.len() implies #[trigger] t[m] by {
        lemma_visited_taken(pts, limit, n, m);
    }
    lemma_all_trues(t, n);
}

/// Each point as a cluster of its own.
pub open spec fn singletons(pts: Seq<(u32, u32)>) -> Seq<PointCluster> {
    Seq::new(pts.len(), |i: int| PointCluster { sum_x: pts[i].0 as u64, sum_y: pts[i].1 as u64, count: 1 })
}

/// Sum of the first `n` points' x (or, with `y`, y) coordinates.
pub open spec fn coord_sum(pts: Seq<(u32, u32)>, n: int, y: bool) -> int
    decreases n,
{
    if n <= 0 {
        0
    } else {
        coord_sum(pts, n - 1, y) + if y {
            pts[n - 1].1 as int
        } else {
            pts[n - 1].0 as int
        }
    }
}

proof fn lemma_taken_none_close(pts: Seq<(u32, u32)>, limit: u64, i: int)
    requires
        0 <= i <= pts.len(),
        forall|a: int, b: int|
            0 <= a < b < pts.len() ==> ((#[trigger] pts[b]).0 - (#[trigger] pts[a]).0) * (pts[b].0
                - pts[a].0) + (pts[b].1 - pts[a].1) * (pts[b].1 - pts[a].1) >= limit,
    ensures
        taken_before(pts, limit, i) == Seq::new(pts.len(), |j: int| j < i),
    decreases i,
{
    if i > 0 {
        lemma_taken_none_close(pts, limit, i - 1);
        let t = taken_before(pts, limit, i - 1);
        assert forall|j: int| 0 <= j < pts.len() && j > i - 1 implies !#[trigger] close(pts[i - 1], pts[j], limit) by {
            assert((pts[j].0 - pts[i - 1].0) * (pts[j].0 - pts[i - 1].0) + (pts[j].1 - pts[i - 1].1) * (
            pts[j].1 - pts[i - 1].1) >= limit);
        }
        assert(taken_before(pts, limit, i) =~= Seq::new(pts.len(), |j: int| j < i));
    }
}

proof fn lemma_gathered_alone(pts: Seq<(u32, u32)>, limit: u64, t: Seq<bool>, k: int, j: int)
    requires
        0 <= k < j <= pts.len(),
        forall|m: int| k < m < j ==> !joins(pts, limit, t, k, m),
    ensures
        gathered(pts, limit, t, k, j) == (PointCluster { sum_x: pts[k].0 as u64, sum_y: pts[k].1 as u64, count: 1 }),
    decreases j - k,
{
    if j > k + 1 {
        lemma_gathered_alone(pts, limit, t, k, j - 1);
    }
}

/// Points that are pairwise at least the merge limit apart (squared) are
/// never merged: each becomes a cluster of its own, in order.
pub proof fn lemma_far_points_stay_apart(pts: Seq<(u32, u32)>, limit: u64)
    requires
        forall|a: int, b: int|
            0 <= a < b < pts.len() ==> ((#[trigger] pts[b]).0 - (#[trigger] pts[a]).0) * (pts[b].0
                - pts[a].0) + (pts[b].1 - pts[a].1) * (pts[b].1 - pts[a].1) >= limit,
    ensures
        point_clusters(pts, limit) == singletons(pts),
{
    let n = pts.len() as int;
    assert forall|i: int| 0 <= i <= n implies #[trigger] clusters_upto(pts, limit, i) == singletons(pts).take(i) by {
        lemma_clusters_apart(pts, limit, i);
    }
    assert(singletons(pts).take(n) =~= singletons(pts));
}

proof fn lemma_clusters_apart(pts: Seq<(u32, u32)>, limit: u64, i: int)
    requires
        0 <= i <= pts.len(),
        forall|a: int, b: int|
            0 <= a < b < pts.len() ==> ((#[trigger] pts[b]).0 - (#[trigger] pts[a]).0) * (pts[b].0
                - pts[a].0) + (pts[b].1 - pts[a].1) * (pts[b].1 - pts[a].1) >= limit,
    ensures
        clusters_upto(pts, limit, i) == singletons(pts).take(i),
    decreases i,
{
    if i == 0 {
        assert(singletons(pts).take(0) =~= Seq::<PointCluster>::empty());
    } else {
        lemma_clusters_apart(pts, limit, i - 1);
        lemma_taken_none_close(pts, limit, i - 1);
        let t = taken_before(pts, limit, i - 1);
        assert forall|m: int| i - 1 < m < pts.len() implies !#[trigger] joins(pts, limit, t, i - 1, m) by {
            assert((pts[m].0 - pts[i - 1].0) * (pts[m].0 - pts[i - 1].0) + (pts[m].1 - pts[i - 1].1) * (
            pts[m].1 - pts[i - 1].1) >= limit);
        }
        lemma_gathered_alone(pts, limit, t, i - 1, pts.len() as int);
        assert(singletons(pts).take(i) =~= singletons(pts).take(i - 1).push(singletons(pts)[i - 1]));
    }
}

proof fn lemma_gathered_all(pts: Seq<(u32, u32)>, limit: u64, t: Seq<bool>, j: int)
    requires
        1 <= j <= pts.len(),
        pts.len() <= u32::MAX,
        forall|m: int| 0 < m < j ==> joins(pts, limit, t, 0, m),
    ensures
        gathered(pts, limit, t, 0, j).sum_x == coord_sum(pts, j, false),
        gathered(pts, limit, t, 0, j).sum_y == coord_sum(pts, j, true),
        gathered(pts, limit, t, 0, j).count == j,
        coord_sum(pts, j, false) <= j * 0xffff_ffff,
        coord_sum(pts, j, true) <= j * 0xffff_ffff,
    decreases j,
{
    if j > 1 {
        lemma_gathered_all(pts, limit, t, j - 1);
        assert((j - 1) * 0xffff_ffff + 0xffff_ffff <= 0xffff_ffff * 0xffff_ffff) by (nonlinear_arith)
            requires
                j <= 0xffff_ffff,
        ;
    } else {
        assert(coord_sum(pts, 0, false) == 0);
        assert(coord_sum(pts, 0, true) == 0);
    }
}

proof fn lemma_taken_all_after_first(pts: Seq<(u32, u32)>, limit: u64, i: int)
    requires
        1 <= i <= pts.len(),
        forall|j: int|
            0 < j < pts.len() ==> ((#[trigger] pts[j]).0 - pts[0].0) * (pts[j].0 - pts[0].0) + (pts[j].1
                - pts[0].1) * (pts[j].1 - pts[0].1) < limit,
    ensures
        taken_before(pts, limit, i) == Seq::new(pts.len(), |j: int| true),
    decreases i,
{
    lemma_taken_len(pts, limit, i - 1);
    if i == 1 {
        let t = taken_before(pts, limit, 0);
        assert forall|j: int| 0 < j < pts.len() implies #[trigger] close(pts[0], pts[j], limit) by {
            assert((pts[j].0 - pts[0].0) * (pts[j].0 - pts[0].0) + (pts[j].1 - pts[0].1) * (pts[j].1
                - pts[0].1) < limit);
        }
        assert(taken_before(pts, limit, 1) =~= Seq::new(pts.len(), |j: int| true));
    } else {
        lemma_taken_all_after_first(pts, limit, i - 1);
    }
}

/// Points that all lie closer than the merge limit (squared) to the first
/// point form a single cluster of all of them.
pub proof fn lemma_points_near_first_merge(pts: Seq<(u32, u32)>, limit: u64)
    requires
        1 <= pts.len() <= u32::MAX,
        forall|j: int|
            0 < j < pts.len() ==> ((#[trigger] pts[j]).0 - pts[0].0) * (pts[j].0 - pts[0].0) + (pts[j].1
                - pts[0].1) * (pts[j].1 - pts[0].1) < limit,
    ensures
        point_clusters(pts, limit) == seq![
            PointCluster {
                sum_x: coord_sum(pts, pts.len() as int, false) as u64,
                sum_y: coord_sum(pts, pts.len() as int, true) as u64,
                count: pts.len() as u64,
            },
        ],
{
    let n = pts.len() as int;
    let t0 = taken_before(pts, limit, 0);
    lemma_taken_len(pts, limit, 0);
    assert forall|m: int| 0 < m < n implies #[trigger] joins(pts, limit, t0, 0, m) by {
        assert((pts[m].0 - pts[0].0) * (pts[m].0 - pts[0].0) + (pts[m].1 - pts[0].1) * (pts[m].1
            - pts[0].1) < limit);
    }
    lemma_gathered_all(pts, limit, t0, n);
    assert(n * 0xffff_ffff <= 0xffff_ffff * 0xffff_ffff) by (nonlinear_arith)
        requires
            n <= 0xffff_ffff,
    ;
    let c = gathered(pts, limit, t0, 0, n);
    assert(!t0[0]);
    assert(clusters_upto(pts, limit, 0) =~= Seq::<PointCluster>::empty());
    assert(clusters_upto(pts, limit, 1) =~= seq![c]);
    assert forall|i: int| 1 <= i <= n implies #[trigger] clusters_upto(pts, limit, i) == seq![c] by {
        lemma_clusters_after_first(pts, limit, i, c);
    }
}

proof fn lemma_clusters_after_first(pts: Seq<(u32, u32)>, limit: u64, i: int, c: PointCluster)
    requires
        1 <= i <= pts.len(),
        clusters_upto(pts, limit, 1) == seq![c],
        forall|j: int|
            0 < j < pts.len() ==> ((#[trigger] pts[j]).0 - pts[0].0) * (pts[j].0 - pts[0].0) + (pts[j].1
                - pts[0].1) * (pts[j].1 - pts[0].1) < limit,
    ensures
        clusters_upto(pts, limit, i) == seq![c],
    decreases i,
{
    if i > 1 {
        lemma_clusters_after_first(pts, limit, i - 1, c);
        lemma_taken_all_after_first(pts, limit, i - 1);
    }
}

} // verus!
