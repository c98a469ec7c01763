use trajview::legacy_parsers::{prase_trajectory_txt, Frame, Position, Trajectory};

fn lines(rows: &[&str]) -> Vec<Vec<u8>> {
    rows.iter().map(|r| r.as_bytes().to_vec()).collect()
}

#[test]
fn no_matching_rows_yield_one_empty_frame() {
    let t = prase_trajectory_txt(&lines(&["garbage", "1 2 3 4", "", "\t1\t2\t3"]));
    assert_eq!(t.frames.len(), 1);
    assert_eq!(t.frames[0].positions.len(), 0);
}

#[test]
fn empty_file_yields_one_empty_frame() {
    let t = prase_trajectory_txt(&Vec::new());
    assert_eq!(t.frames.len(), 1);
    assert_eq!(t.frames[0].positions.len(), 0);
}

#[test]
fn end_to_end_three_rows() {
    let t = prase_trajectory_txt(&lines(&["1\t0\t0.0\t0.0", "1\t0\t1.0\t1.0", "1\t1\t2.0\t2.0"]));
    // One empty frame always stands before the scan; the two frame ids
    // then open one playback frame each.
    assert_eq!(t.frames.len(), 3);
    assert_eq!(t.frames[0].positions.len(), 0);
    assert_eq!(t.frames[1].positions.len(), 2);
    assert_eq!(t.frames[2].positions.len(), 1);
    assert_eq!(t.frames[1].positions[0], Position { x: 0, y: 0 });
    assert_eq!(t.frames[1].positions[1], Position { x: 1_000_000, y: 1_000_000 });
    assert_eq!(t.frames[2].positions[0], Position { x: 2_000_000, y: 2_000_000 });
}

#[test]
fn contiguous_ids_build_one_frame_per_id() {
    let t = prase_trajectory_txt(&lines(&["9\t0\t1.0\t1.0", "9\t1\t2.0\t2.0", "9\t2\t3.0\t3.0"]));
    // Highest id 2, plus the initial empty frame: four frames.
    assert_eq!(t.frames.len(), 4);
    assert_eq!(t.frames[0].positions.len(), 0);
    assert_eq!(t.frames[1].positions.len(), 1);
    assert_eq!(t.frames[2].positions.len(), 1);
    assert_eq!(t.frames[3].positions.len(), 1);
}

#[test]
fn id_gaps_advance_playback_index_by_one() {
    // Ids 0, 2, 3: the counter only ever steps by one, so the gap does
    // not produce an empty playback frame for the missing id.
    let t = prase_trajectory_txt(&lines(&["1\t0\t1.0\t1.0", "1\t2\t2.0\t2.0", "1\t3\t3.0\t3.0"]));
    assert_eq!(t.frames.len(), 4);
    assert_eq!(t.frames[1].positions[0].x, 1_000_000);
    assert_eq!(t.frames[2].positions[0].x, 2_000_000);
    assert_eq!(t.frames[3].positions[0].x, 3_000_000);
}

#[test]
fn rows_sort_by_frame_id_stably() {
    let t = prase_trajectory_txt(&lines(&[
        "5\t1\t10.0\t0.0",
        "7\t0\t20.0\t0.0",
        "5\t1\t30.0\t0.0",
    ]));
    assert_eq!(t.frames.len(), 3);
    assert_eq!(t.frames[1].positions.len(), 1);
    assert_eq!(t.frames[1].positions[0].x, 20_000_000);
    // The two id-1 rows keep their file order.
    assert_eq!(t.frames[2].positions.len(), 2);
    assert_eq!(t.frames[2].positions[0].x, 10_000_000);
    assert_eq!(t.frames[2].positions[1].x, 30_000_000);
}

#[test]
fn trailing_content_is_ignored() {
    let t = prase_trajectory_txt(&lines(&["1\t0\t3.5\t4.5xyz", "1\t1\t2\t7 anything"]));
    assert_eq!(t.frames.len(), 3);
    assert_eq!(t.frames[1].positions[0], Position { x: 3_500_000, y: 4_500_000 });
    assert_eq!(t.frames[2].positions[0], Position { x: 2_000_000, y: 7_000_000 });
}

#[test]
fn malformed_numbers_are_skipped() {
    let t = prase_trajectory_txt(&lines(&[
        "1\t0\t3..5\t4",  // double point breaks the third field
        "1\t0\t.5\t1",    // fraction without integer digits
        "1\t0\t5.\t1",    // point without fraction digits ends the field
        "-1\t0\t1\t1",    // signs never match
        "1\t0\t1\t",      // fourth field missing
    ]));
    assert_eq!(t.frames.len(), 1);
    assert_eq!(t.frames[0].positions.len(), 0);
}

#[test]
fn fraction_digits_past_the_sixth_are_cut() {
    let t = prase_trajectory_txt(&lines(&["1\t0\t0.1234567\t0.5"]));
    assert_eq!(t.frames[1].positions[0], Position { x: 123_456, y: 500_000 });
}

#[test]
fn area_over_built_trajectory() {
    // The rows (_, 0, 1.0, 2.0), (_, 0, 3.0, 0.0), (_, 1, -1.0, 5.0),
    // written directly as frames (coordinates in micro-units).
    let t = Trajectory {
        frames: vec![
            Frame { positions: vec![] },
            Frame {
                positions: vec![
                    Position { x: 1_000_000, y: 2_000_000 },
                    Position { x: 3_000_000, y: 0 },
                ],
            },
            Frame { positions: vec![Position { x: -1_000_000, y: 5_000_000 }] },
        ],
    };
    assert_eq!(t.area(), (-1_000_000, 3_000_000, 0, 5_000_000));
}

#[test]
fn area_of_empty_trajectory_is_the_sentinel() {
    let t = Trajectory { frames: vec![Frame { positions: vec![] }] };
    assert_eq!(t.area(), (i64::MAX, i64::MIN, i64::MAX, i64::MIN));
}
