use imagespin::spin::turn_step;

#[test]
fn frame_n_lands_where_frame_0_does() {
    for turns in [-7, -3, -1, 0, 1, 2, 5] {
        assert_eq!(turn_step(turns, 150, 150), turn_step(turns, 0, 150));
        assert_eq!(turn_step(turns, 0, 150), 0);
    }
}

#[test]
fn steps_are_turns_times_frame_modulo_frames() {
    assert_eq!(turn_step(1, 1, 150), 1);
    assert_eq!(turn_step(2, 75, 150), 0);
    assert_eq!(turn_step(3, 60, 150), 30);
    assert_eq!(turn_step(-3, 1, 150), 147);
    assert_eq!(turn_step(-1, 149, 150), 1);
}

#[test]
fn extreme_turns_do_not_overflow() {
    assert_eq!(turn_step(i32::MIN, u32::MAX, 7), ((i32::MIN as i64 * u32::MAX as i64).rem_euclid(7)) as u32);
    assert_eq!(turn_step(i32::MAX, u32::MAX, 1000), ((i32::MAX as i64 * u32::MAX as i64) % 1000) as u32);
}
