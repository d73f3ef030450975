use babel::cvg::progress::{Progress, Route, Trial};

type Point = Vec<f64>;

fn trial(points: usize, proposed: u64) -> Trial<Point> {
    Trial { points: (0..points).map(|i| vec![f64::from(u8::try_from(i).unwrap())]).collect(), proposed }
}

#[test]
fn absorbing_counts_trials_and_extending_does_not() {
    let progress = Progress::empty()
        .absorb(trial(2, 1_000))
        .extend(vec![vec![9.0], vec![8.0], vec![7.0]])
        .absorb(trial(1, 500));

    assert_eq!(progress.points().len(), 6);
    assert_eq!(progress.proposed(), 1_500);
    assert_eq!(progress.landed(), 3, "walked points are not trials");
}

#[test]
fn an_empty_trial_still_cost_its_proposals() {
    let progress: Progress<Point> = Progress::empty().absorb(trial(0, 2_730));
    assert!(progress.is_empty());
    assert_eq!(progress.proposed(), 2_730);
    assert_eq!(progress.landed(), 0);
}

#[test]
fn the_first_pin_wins() {
    let progress: Progress<Point> = Progress::empty().pin(Route::Walking).pin(Route::Sampling);
    assert_eq!(progress.route(), Route::Walking);
}

#[test]
fn points_arrive_in_order_and_a_pin_keeps_them() {
    let progress = Progress::empty()
        .extend(vec![vec![1.0]])
        .absorb(trial(2, 7))
        .pin(Route::Sampling)
        .extend(vec![vec![5.0, 6.0]]);
    assert_eq!(progress.points(), &[vec![1.0], vec![0.0], vec![1.0], vec![5.0, 6.0]][..]);
    assert_eq!(progress.route(), Route::Sampling);
    assert_eq!(progress.proposed(), 7);
    assert_eq!(progress.landed(), 2);
}
