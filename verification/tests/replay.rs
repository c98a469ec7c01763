use trajview::legacy_parsers::{prase_trajectory_txt, Frame, Position, Trajectory};
use trajview::replay::Replay;

const MILLISECOND: u64 = 1_000_000;

fn three_frame_trajectory() -> Trajectory {
    prase_trajectory_txt(
        &["1\t0\t0.0\t0.0", "1\t0\t1.0\t1.0", "1\t1\t2.0\t2.0"]
            .iter()
            .map(|r| r.as_bytes().to_vec())
            .collect(),
    )
}

#[test]
fn new_replay_starts_at_zero() {
    let r = Replay::new(three_frame_trajectory(), 100 * MILLISECOND);
    assert_eq!(r.frames(), 3);
    assert_eq!(r.current_frame_index(), 0);
    assert_eq!(r.elapsed(), 0);
    // Three frames: two whole per-frame durations.
    assert_eq!(r.total_duration(), 200 * MILLISECOND);
}

#[test]
fn advance_maps_elapsed_time_onto_frames() {
    let mut r = Replay::new(three_frame_trajectory(), 100 * MILLISECOND);
    r.advance_by(50 * MILLISECOND);
    assert_eq!(r.current_frame_index(), 0);
    assert_eq!(r.elapsed(), 50 * MILLISECOND);
    r.advance_by(60 * MILLISECOND);
    assert_eq!(r.current_frame_index(), 1);
    assert_eq!(r.elapsed(), 110 * MILLISECOND);
    assert_eq!(r.current_frame().positions.len(), 2);
}

#[test]
fn elapsed_and_index_never_decrease() {
    let mut r = Replay::new(three_frame_trajectory(), 100 * MILLISECOND);
    let deltas = [0u64, 30, 0, 250, 10, 0, 999];
    let mut last_elapsed = 0u64;
    let mut last_index = 0usize;
    for d in deltas {
        r.advance_by(d * MILLISECOND);
        assert!(r.elapsed() >= last_elapsed);
        assert!(r.current_frame_index() >= last_index);
        assert!(r.elapsed() <= r.total_duration());
        assert!(r.current_frame_index() < r.frames());
        last_elapsed = r.elapsed();
        last_index = r.current_frame_index();
    }
}

#[test]
fn advancing_by_zero_changes_nothing() {
    let mut r = Replay::new(three_frame_trajectory(), 100 * MILLISECOND);
    r.advance_by(70 * MILLISECOND);
    let elapsed = r.elapsed();
    let index = r.current_frame_index();
    for _ in 0..5 {
        r.advance_by(0);
        assert_eq!(r.elapsed(), elapsed);
        assert_eq!(r.current_frame_index(), index);
    }
}

#[test]
fn advancing_past_the_end_freezes_on_the_last_frame() {
    let mut r = Replay::new(three_frame_trajectory(), 100 * MILLISECOND);
    r.advance_by(r.total_duration() + 1);
    assert_eq!(r.current_frame_index(), r.frames() - 1);
    assert_eq!(r.elapsed(), r.total_duration());
    r.advance_by(u64::MAX);
    assert_eq!(r.current_frame_index(), r.frames() - 1);
    assert_eq!(r.elapsed(), r.total_duration());
}

#[test]
fn single_frame_trajectory_stays_on_frame_zero() {
    let t = Trajectory { frames: vec![Frame { positions: vec![Position { x: 1, y: 2 }] }] };
    let mut r = Replay::new(t, 100 * MILLISECOND);
    assert_eq!(r.total_duration(), 0);
    r.advance_by(500 * MILLISECOND);
    assert_eq!(r.current_frame_index(), 0);
    assert_eq!(r.current_frame().positions[0], Position { x: 1, y: 2 });
}

#[test]
fn replay_area_delegates_to_the_trajectory() {
    let r = Replay::new(three_frame_trajectory(), 100 * MILLISECOND);
    assert_eq!(r.area(), (0, 2_000_000, 0, 2_000_000));
}
