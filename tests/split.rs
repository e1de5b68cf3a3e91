use shear::split_long_scenes;

#[test]
fn test_split_long_scenes_no_split_needed() {
    let scenes = vec![0, 100, 200];
    let result = split_long_scenes(&scenes, 300, 150);
    assert_eq!(result, vec![0, 100, 200]);
}

#[test]
fn test_split_long_scenes_single_split() {
    let scenes = vec![0];
    let result = split_long_scenes(&scenes, 400, 250);
    // 400 frames, at most 250 each: 2 chunks of 200
    assert_eq!(result, vec![0, 200]);
}

#[test]
fn test_split_long_scenes_multiple_splits() {
    let scenes = vec![0];
    let result = split_long_scenes(&scenes, 1000, 300);
    // 1000 frames, at most 300 each: 4 chunks of 250
    assert_eq!(result, vec![0, 250, 500, 750]);
}

#[test]
fn test_split_long_scenes_mixed() {
    let scenes = vec![0, 100, 600];
    let result = split_long_scenes(&scenes, 900, 200);
    // 0-100 stays; 100-600 gives 3 chunks of 166; 600-900 gives 2 chunks of 150
    assert_eq!(result, vec![0, 100, 266, 432, 600, 750]);
}

#[test]
fn empty_input_gives_empty_output() {
    let result = split_long_scenes(&[], 1000, 100);
    assert_eq!(result, Vec::<usize>::new());
}

#[test]
fn scene_of_exactly_max_is_not_split() {
    assert_eq!(split_long_scenes(&[0, 100], 200, 100), vec![0, 100]);
}

#[test]
fn scene_one_over_max_is_halved() {
    assert_eq!(split_long_scenes(&[0], 101, 100), vec![0, 50]);
}

#[test]
fn zero_total_frames_keeps_the_start() {
    assert_eq!(split_long_scenes(&[0], 0, 10), vec![0]);
}

#[test]
fn total_before_last_start_adds_nothing() {
    assert_eq!(split_long_scenes(&[0, 50], 20, 100), vec![0, 50]);
}

#[test]
fn last_scene_runs_to_total_frames() {
    assert_eq!(split_long_scenes(&[0, 10], 40, 10), vec![0, 10, 20, 30]);
}

#[test]
fn start_not_at_zero_is_kept_first() {
    assert_eq!(split_long_scenes(&[30], 130, 50), vec![30, 80]);
}

#[test]
fn max_of_one_splits_every_frame() {
    assert_eq!(split_long_scenes(&[0], 5, 1), vec![0, 1, 2, 3, 4]);
}

#[test]
fn unsorted_input_is_sorted_and_deduplicated() {
    // 5..3 is empty; 3..20 has 17 frames, split into 2 chunks of 8
    assert_eq!(split_long_scenes(&[5, 3], 20, 10), vec![3, 5, 11]);
    assert_eq!(split_long_scenes(&[4, 4], 6, 10), vec![4]);
}

#[test]
fn remainder_can_leave_last_piece_over_max() {
    // 97 frames, at most 10 each: 10 chunks of 9, the last one 16 frames long
    let once = split_long_scenes(&[0], 97, 10);
    assert_eq!(once, vec![0, 9, 18, 27, 36, 45, 54, 63, 72, 81]);
    let twice = split_long_scenes(&once, 97, 10);
    assert_eq!(twice, vec![0, 9, 18, 27, 36, 45, 54, 63, 72, 81, 89]);
}

#[test]
fn short_scenes_come_back_unchanged() {
    let scenes = vec![0, 7, 12, 40, 41];
    assert_eq!(split_long_scenes(&scenes, 60, 30), scenes);
}

#[test]
fn output_holds_every_input_start_in_order() {
    let scenes = vec![0, 35, 300, 301, 900];
    let out = split_long_scenes(&scenes, 1200, 120);
    for s in &scenes {
        assert!(out.contains(s));
    }
    assert!(out.len() >= scenes.len());
    for w in out.windows(2) {
        assert!(w[0] < w[1]);
    }
}

#[test]
fn output_scenes_are_within_max() {
    let scenes = vec![0, 100, 600];
    let out = split_long_scenes(&scenes, 900, 200);
    for w in out.windows(2) {
        assert!(w[1] - w[0] <= 200);
    }
    assert!(900 - out[out.len() - 1] <= 200);
}

#[test]
fn splitting_twice_changes_nothing() {
    let once = split_long_scenes(&[0, 100, 600], 900, 200);
    let twice = split_long_scenes(&once, 900, 200);
    assert_eq!(once, twice);
}

#[test]
fn same_arguments_give_same_result() {
    let a = split_long_scenes(&[0, 250, 700], 1000, 120);
    let b = split_long_scenes(&[0, 250, 700], 1000, 120);
    assert_eq!(a, b);
    assert_eq!(a, vec![0, 83, 166, 250, 362, 474, 586, 700, 800, 900]);
}
