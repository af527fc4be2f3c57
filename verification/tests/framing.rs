use acoustic_drone::framing::{
    batch_ranges, clip_windows, frame_offsets, stride_subsample, time_slots, FRAME_SIZE, HOP,
    NUM_BINS,
};

#[test]
fn frame_constants() {
    assert_eq!(FRAME_SIZE, 1024);
    assert_eq!(NUM_BINS, FRAME_SIZE / 2);
    assert_eq!(HOP, 512);
}

#[test]
fn frames_of_a_long_clip() {
    assert_eq!(frame_offsets(2048), vec![0, 512, 1024]);
    assert_eq!(frame_offsets(2047), vec![0, 512]);
    assert_eq!(frame_offsets(1024), vec![0]);
}

#[test]
fn short_clip_is_one_padded_frame() {
    assert_eq!(frame_offsets(500), vec![0]);
    assert_eq!(frame_offsets(1), vec![0]);
}

#[test]
fn empty_clip_has_no_frames() {
    assert!(frame_offsets(0).is_empty());
}

#[test]
fn frames_fit_and_cover() {
    for len in [1000usize, 1024, 1536, 16000, 16001] {
        let offs = frame_offsets(len);
        for &o in &offs {
            assert!(len < FRAME_SIZE || o + FRAME_SIZE <= len);
        }
        if len >= FRAME_SIZE {
            assert!(offs.last().unwrap() + FRAME_SIZE + HOP > len);
        }
    }
}

#[test]
fn full_windows() {
    assert_eq!(clip_windows(10, 4), vec![(0, 4), (4, 8)]);
    assert_eq!(clip_windows(8, 4), vec![(0, 4), (4, 8)]);
}

#[test]
fn short_clip_kept_when_at_least_half_a_window() {
    assert_eq!(clip_windows(3, 4), vec![(0, 3)]);
    assert_eq!(clip_windows(2, 4), vec![(0, 2)]);
    assert!(clip_windows(1, 4).is_empty());
    assert!(clip_windows(0, 4).is_empty());
}

#[test]
fn stride_subsample_caps() {
    assert_eq!(stride_subsample(10, 3), vec![0, 4, 8]);
    assert_eq!(stride_subsample(10, 0), (0..10).collect::<Vec<usize>>());
    assert_eq!(stride_subsample(5, 10), vec![0, 1, 2, 3, 4]);
    assert_eq!(stride_subsample(9, 3), vec![0, 3, 6]);
    assert!(stride_subsample(0, 4).is_empty());
}

#[test]
fn batches_tile_the_range() {
    assert_eq!(batch_ranges(10, 4), vec![(0, 4), (4, 8), (8, 10)]);
    assert_eq!(batch_ranges(8, 4), vec![(0, 4), (4, 8)]);
    assert!(batch_ranges(0, 4).is_empty());
    assert_eq!(batch_ranges(3, 64), vec![(0, 3)]);
}

#[test]
fn windows_are_disjoint_and_inside_the_clip() {
    for (len, win) in [(16000usize, 4000usize), (17999, 4000), (1999, 4000), (0, 10)] {
        let w = clip_windows(len, win);
        for (k, &(a, b)) in w.iter().enumerate() {
            assert!(a < b && b <= len);
            if k > 0 {
                assert!(w[k - 1].1 <= a);
            }
        }
    }
}

#[test]
fn time_slots_tile_many_frames() {
    assert_eq!(time_slots(32, 16)[..3].to_vec(), vec![(0, 2), (2, 4), (4, 6)]);
    let s = time_slots(37, 16);
    assert_eq!(s.len(), 16);
    assert_eq!(s[0].0, 0);
    assert_eq!(s[15].1, 37);
    for k in 1..16 {
        assert_eq!(s[k - 1].1, s[k].0);
        assert!(s[k].0 < s[k].1);
    }
}

#[test]
fn time_slots_reuse_frames_when_few() {
    assert_eq!(time_slots(3, 4), vec![(0, 1), (0, 1), (1, 2), (2, 3)]);
    assert_eq!(time_slots(1, 3), vec![(0, 1), (0, 1), (0, 1)]);
    assert_eq!(time_slots(0, 2), vec![(0, 0), (0, 0)]);
}
