use launch_monitor_research::report::Tier;
use launch_monitor_research::triangulation::{launch_fit_strategy, refit_selection, FitStrategy, TriangulationError};

#[test]
fn tier_labels() {
    assert_eq!(Tier::Good.label(), "GOOD");
    assert_eq!(Tier::Useful.label(), "USEFUL");
    assert_eq!(Tier::Fail.label(), "FAIL");
}

#[test]
fn fit_strategy_by_frame_count() {
    assert_eq!(launch_fit_strategy(0), Err(TriangulationError::InsufficientFrames));
    assert_eq!(launch_fit_strategy(1), Err(TriangulationError::InsufficientFrames));
    assert_eq!(launch_fit_strategy(2), Ok(FitStrategy::Direct));
    assert_eq!(launch_fit_strategy(3), Ok(FitStrategy::Direct));
    assert_eq!(launch_fit_strategy(4), Ok(FitStrategy::RejectOutliers));
}

#[test]
fn refit_only_when_some_but_not_too_many_are_rejected() {
    assert_eq!(refit_selection(&vec![true, false, true, true]), Some(vec![0, 2, 3]));
    assert_eq!(refit_selection(&vec![true, true, true, true]), None);
    assert_eq!(refit_selection(&vec![false, true, false, false]), None);
    assert_eq!(refit_selection(&vec![true, true, false, false]), Some(vec![0, 1]));
}
