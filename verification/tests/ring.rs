use knoflik_sdr::ring::{
    feed_frames, feed_from, read_frames, read_step, ring_of, sound_ring, take_frames, ReadStep,
    SOUND_RING,
};

#[test]
fn frames_go_through_in_order() {
    let (mut tx, mut rx) = sound_ring();
    assert_eq!(feed_frames(&mut tx, &[1, 2, 3, 4, 5]), 2);
    assert_eq!(take_frames(&mut rx, 3, 9), (vec![1, 2, 3, 4, 9, 9], 2));
    assert_eq!(take_frames(&mut rx, 1, 0), (vec![0, 0], 0));
}

#[test]
fn half_a_frame_is_left_waiting() {
    let (mut tx, mut rx) = sound_ring();
    assert_eq!(feed_from(&mut tx, &[1, 2, 3], 0), 3);
    assert_eq!(take_frames(&mut rx, 2, 0), (vec![1, 2, 0, 0], 1));
    assert_eq!(feed_from(&mut tx, &[3, 4], 1), 2);
    assert_eq!(take_frames(&mut rx, 1, 0), (vec![3, 4], 1));
}

#[test]
fn a_full_ring_takes_whole_frames_only() {
    let (mut tx, mut rx) = sound_ring();
    let many: Vec<u32> = (0..SOUND_RING as u32 + 100).collect();
    assert_eq!(feed_from(&mut tx, &many[..SOUND_RING - 1], 0), SOUND_RING - 1);
    // One place is left, and a frame needs two.
    assert_eq!(feed_frames(&mut tx, &[1, 2]), 0);
    assert_eq!(feed_from(&mut tx, &[7, 8], 0), 1);
    assert_eq!(feed_from(&mut tx, &[7, 8], 1), 1);
    let got = read_frames(&mut rx, 5);
    assert_eq!(got, vec![0, 1, 2, 3]);
    assert_eq!(feed_frames(&mut tx, &[1, 2, 3, 4, 5, 6]), 2);
}

#[test]
fn reading_takes_what_is_there() {
    let (mut tx, mut rx) = sound_ring();
    assert!(read_frames(&mut rx, 10).is_empty());
    feed_frames(&mut tx, &[5, 6, 7, 8]);
    assert_eq!(read_frames(&mut rx, 100), vec![5, 6, 7, 8]);
    assert_eq!(read_step(2, false), ReadStep::Give);
    assert_eq!(read_step(0, false), ReadStep::Rest);
    assert_eq!(read_step(0, true), ReadStep::GiveUp);
}

#[test]
fn a_ring_has_the_room_that_it_was_given() {
    let (mut tx, mut rx) = ring_of(5);
    assert_eq!(feed_frames(&mut tx, &[1, 2, 3, 4, 5, 6]), 2);
    assert_eq!(read_frames(&mut rx, 8), vec![1, 2, 3, 4]);
}
