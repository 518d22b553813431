use vstd::prelude::*;

verus! {

/// Why no launch estimate could be made.
#[derive(Debug, Clone, Copy, PartialEq, Eq, Structural)]
pub enum TriangulationError {
    /// Fewer than two frames: no velocity can be fitted.
    InsufficientFrames,
    /// A point or the velocity fit was degenerate.
    Failed,
}

/// How the velocity is fitted to the triangulated positions.
#[derive(Debug, Clone, Copy, PartialEq, Eq, Structural)]
pub enum FitStrategy {
    /// A single least-squares fit over all positions.
    Direct,
    /// A first fit, then a refit without positions whose residual exceeds
    /// the mean residual by more than two standard deviations.
    RejectOutliers,
}

/// Positions needed before outliers are rejected.
pub const MIN_FRAMES_FOR_OUTLIER_REJECTION: usize = 4;

/// The fit used for `n` triangulated frames: none below two frames, a
/// single fit below `MIN_FRAMES_FOR_OUTLIER_REJECTION`, outlier rejection
/// from there on.
pub fn launch_fit_strategy(n: usize) -> (r: Result<FitStrategy, TriangulationError>)
    ensures
        n < 2 ==> r == Err::<FitStrategy, TriangulationError>(TriangulationError::InsufficientFrames),
        2 <= n < MIN_FRAMES_FOR_OUTLIER_REJECTION ==> r == Ok::<FitStrategy, TriangulationError>(
            FitStrategy::Direct,
        ),
        n >= MIN_FRAMES_FOR_OUTLIER_REJECTION ==> r == Ok::<FitStrategy, TriangulationError>(
            FitStrategy::RejectOutliers,
        ),
{
    if n < 2 {
        Err(TriangulationError::InsufficientFrames)
    } else if n < MIN_FRAMES_FOR_OUTLIER_REJECTION {
        Ok(FitStrategy::Direct)
    } else {
        Ok(FitStrategy::RejectOutliers)
    }
}

/// Positions of the `true` entries of `keep`, in order.
pub open spec fn kept_indices(keep: Seq<bool>) -> Seq<usize>
    decreases keep.len(),
{
    if keep.len() == 0 {
        Seq::empty()
    } else {
        let prev = kept_indices(keep.drop_last());
        if keep.last() {
            prev.push((keep.len() - 1) as usize)
        } else {
            prev
        }
    }
}

/// After outlier rejection, the frames to refit on: the inliers (`keep`)
/// when at least two remain and at least one was rejected; `None` when the
/// first fit over all frames stands.
pub fn refit_selection(keep: &Vec<bool>) -> (r: Option<Vec<usize>>)
    ensures
        ({
            let k = kept_indices(keep@);
            if k.len() >= 2 && k.len() < keep@.len() {
                r matches Some(v) && v@ == k
            } else {
                r is None
            }
        }),
{
    let mut kept: Vec<usize> = Vec::new();
    let mut i: usize = 0;
    while i < keep.len()
        invariant
            i <= keep@.len(),
            kept@ == kept_indices(keep@.take(i as int)),
            kept@.len() <= i,
        decreases keep@.len() - i,
    {
        proof {
            assert(keep@.take(i + 1).drop_last() =~= keep@.take(i as int));
        }
        if keep[i] {
            kept.push(i);
        }
        i += 1;
    }
    proof {
        assert(keep@.take(keep@.len() as int) =~= keep@);
    }
    if kept.len() >= 2 && kept.len() < keep.len() {
        Some(kept)
    } else {
        None
    }
}

} // verus!
