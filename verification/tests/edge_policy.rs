use splice_core::edge_policy::{Gesture, Outcome, Progress};
use splice_core::geometry::EdgeSide;
use splice_core::input_settings::{CrossingPolicy, POINT};

fn points(value: f64) -> Option<i64> {
    value.is_finite().then_some((value * POINT as f64).round() as i64)
}

fn resistance(points: i64, decay_per_second: i64) -> CrossingPolicy {
    CrossingPolicy::Resistance {
        points: points * POINT,
        decay_per_second: decay_per_second * POINT,
    }
}

fn share(progress: Progress) -> f64 {
    progress.done as f64 / progress.whole as f64
}

fn waiting(outcome: Outcome) -> f64 {
    let Outcome::Waiting(progress) = outcome else { panic!("unexpected gesture outcome") };
    share(progress)
}

const START: u64 = 1_000_000;
const SECOND: u64 = 1_000_000;

#[test]
fn resistance_uses_only_outward_motion_and_retreat_cancels() {
    let mut gesture = Gesture::new(resistance(100, 20), EdgeSide::Right, START);
    assert_eq!(waiting(gesture.update(points(0.0), points(5000.0), START)), 0.0);
    assert_eq!(waiting(gesture.update(points(50.0), points(5000.0), START)), 0.5);
    assert_eq!(waiting(gesture.update(points(0.0), points(0.0), START + SECOND)), 0.3);
    assert_eq!(gesture.update(points(-0.1), points(0.0), START + SECOND), Outcome::Cancel);
}

#[test]
fn polling_rate_does_not_change_resistance() {
    for hz in [125u64, 500, 1000, 8000] {
        let mut gesture = Gesture::new(resistance(200, 20), EdgeSide::Bottom, START);
        let mut result = Outcome::Cancel;
        for index in 1..=hz {
            result = gesture.update(
                points(10.0 / hz as f64),
                points(120.0 / hz as f64),
                START + index * SECOND / hz,
            );
        }
        let progress = waiting(result);
        assert!((progress - 0.5).abs() < 0.00001, "{hz} Hz: {progress}");
    }
}

#[test]
fn dwell_is_time_based_and_nonfinite_motion_cancels() {
    let policy = CrossingPolicy::Dwell { milliseconds: 250 };
    let mut gesture = Gesture::new(policy, EdgeSide::Top, START);
    assert_eq!(waiting(gesture.update(points(0.0), points(0.0), START + 249_000)), 0.996);
    assert_eq!(gesture.update(points(0.0), points(0.0), START + 250_000), Outcome::Cross);
    assert_eq!(
        gesture.update(points(f64::NAN), points(0.0), START + 251_000),
        Outcome::Cancel
    );
}

#[test]
fn time_that_runs_backwards_cancels() {
    let policy = CrossingPolicy::Dwell { milliseconds: 250 };
    let mut gesture = Gesture::new(policy, EdgeSide::Top, START);
    gesture.update(points(0.0), points(0.0), START + 250_000);
    assert_eq!(gesture.update(points(0.0), points(0.0), START + 249_000), Outcome::Cancel);
}

#[test]
fn nothing_holds_the_pointer_back_at_an_open_edge() {
    let mut gesture = Gesture::new(CrossingPolicy::Immediate, EdgeSide::Left, START);
    assert_eq!(gesture.update(points(-0.5), points(0.0), START), Outcome::Cross);
}

#[test]
fn resistance_is_overcome_at_its_whole_width() {
    let mut gesture = Gesture::new(resistance(100, 0), EdgeSide::Left, START);
    assert_eq!(waiting(gesture.update(points(-60.0), points(0.0), START)), 0.6);
    assert_eq!(gesture.update(points(-40.0), points(0.0), START + SECOND), Outcome::Cross);
}
