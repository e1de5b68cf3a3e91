use shear::{normalize, scene_frame_limit, total_frame_count, with_first_scene};

#[test]
fn frame_limit_takes_seconds_limit_when_smaller() {
    // 24 fps for 10 s is 240 frames
    assert_eq!(scene_frame_limit(24, 1, 10, 300), 240);
}

#[test]
fn frame_limit_takes_frame_limit_when_smaller() {
    // 60 fps for 10 s is 600 frames
    assert_eq!(scene_frame_limit(60, 1, 10, 300), 300);
}

#[test]
fn frame_limit_rounds_up() {
    // 30000/1001 fps for 10 s is 299.7 frames
    assert_eq!(scene_frame_limit(30000, 1001, 10, 1000), 300);
    assert_eq!(scene_frame_limit(30000, 1001, 1001, 100000), 30000);
}

#[test]
fn frame_limit_without_rate_is_frame_limit() {
    assert_eq!(scene_frame_limit(25, 0, 10, 300), 300);
}

#[test]
fn frame_limit_of_zero_rate_is_zero() {
    assert_eq!(scene_frame_limit(0, 1, 10, 300), 0);
}

#[test]
fn frame_limit_handles_largest_values() {
    assert_eq!(scene_frame_limit(u32::MAX, 1, u32::MAX, usize::MAX), 0xffff_fffe_0000_0001);
}

#[test]
fn given_frame_count_wins() {
    assert_eq!(total_frame_count(500, 480), 500);
    assert_eq!(total_frame_count(0, 480), 480);
}

#[test]
fn first_scene_added_when_missing() {
    assert_eq!(with_first_scene(vec![]), vec![0]);
    assert_eq!(with_first_scene(vec![12, 40]), vec![0, 12, 40]);
}

#[test]
fn first_scene_kept_when_present() {
    assert_eq!(with_first_scene(vec![0, 12]), vec![0, 12]);
}

#[test]
fn normalize_sorts_and_deduplicates() {
    assert_eq!(normalize(&vec![5, 1, 3, 1, 5, 0]), vec![0, 1, 3, 5]);
    assert_eq!(normalize(&vec![]), Vec::<usize>::new());
    assert_eq!(normalize(&vec![2, 4, 9]), vec![2, 4, 9]);
}
