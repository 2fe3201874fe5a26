use imagespin::typing::{key_letter, last_lit, Typing};

#[test]
fn four_letters_are_walked_in_turn_and_backspace_gives_one_back() {
    // A twelfth of the way round four letters is one letter.
    assert_eq!(key_letter(0, 4), 0);
    assert_eq!(key_letter(1, 4), 1);
    // Backspace takes `typed` back to 1, so the next key lights the same letter again.
    assert_eq!(key_letter(1, 4), 1);
    assert_eq!(key_letter(4, 4), 0);
}

#[test]
fn a_dozen_keys_go_once_round_and_the_next_lap_is_nudged_on() {
    // 36 letters: three to the step.
    let first: Vec<usize> = (0..12).map(|t| key_letter(t, 36)).collect();
    assert_eq!(first, [0, 3, 6, 9, 12, 15, 18, 21, 24, 27, 30, 33]);
    let second: Vec<usize> = (12..24).map(|t| key_letter(t, 36)).collect();
    assert_eq!(second, [1, 4, 7, 10, 13, 16, 19, 22, 25, 28, 31, 34]);
    assert!(second.iter().all(|l| !first.contains(l)));
}

#[test]
fn one_letter_takes_every_key() {
    assert!((0..30).all(|t| key_letter(t, 1) == 0));
}

#[test]
fn backspace_puts_out_the_last_letter_still_lit() {
    assert_eq!(last_lit(&[false, true, false, true]), Some(2));
    assert_eq!(last_lit(&[false, false]), Some(1));
    assert_eq!(last_lit(&[true, true]), None);
    assert_eq!(last_lit(&[]), None);
}

#[test]
fn it_walks_the_busiest_ring_clockwise_and_backspace_steps_back() {
    let mut t: Typing<f32> = Typing::new(4, 8);
    assert_eq!(t.key(0.0), Some(0), "starts at North");
    assert_eq!(t.key(0.0), Some(1), "then clockwise");
    t.back(0.0);
    assert_eq!(t.lit_letters()[1].out, Some(0.0));
    assert_eq!(t.key(0.0), Some(1), "backspace gave the letter back");
    assert_eq!(t.lit_letters().len(), 3);
}

#[test]
fn lit_letters_are_capped_and_clear_puts_all_out() {
    let mut t: Typing<u32> = Typing::new(5, 2);
    for _ in 0..3 {
        t.key(7);
    }
    let letters: Vec<usize> = t.lit_letters().iter().map(|l| l.letter).collect();
    assert_eq!(letters, [1, 2]);
    t.clear(9);
    assert!(t.lit_letters().iter().all(|l| l.out == Some(9)));
    assert_eq!(t.key(0), Some(0), "typing starts over after a clear");
    let mut empty: Typing<u32> = Typing::new(0, 2);
    assert_eq!(empty.key(0), None);
    empty.back(0);
    assert!(empty.lit_letters().is_empty());
}
