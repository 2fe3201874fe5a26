use imagespin::pyramid::{glow_chain_of, glow_levels};

#[test]
fn levels_count_the_binary_digits_of_the_longest_side() {
    assert_eq!(glow_levels(13, 6), 4);
    assert_eq!(glow_levels(1, 1), 1);
    assert_eq!(glow_levels(0, 0), 1);
    assert_eq!(glow_levels(1024, 1), 11);
    assert_eq!(glow_levels(1023, 1), 10);
    assert_eq!(glow_levels(3, 1000), 10);
    assert_eq!(glow_levels(u32::MAX, 1), 32);
}

/// The chain ends at one texel and holds exactly the bytes a full mip chain needs.
#[test]
fn chains_are_complete() {
    let (glow, m) = glow_chain_of(vec![200; 13 * 6], (13, 6));
    assert_eq!(m, glow_levels(13, 6));
    // 13x6, 6x3, 3x1, 1x1
    let texels = 13 * 6 + 6 * 3 + 3 + 1;
    assert_eq!(glow.len(), texels);
    assert!(glow.iter().all(|&v| v == 200));
}

#[test]
fn each_level_is_the_rounded_mean_of_a_clamped_box() {
    // 3x1: 0, 10, 255. The next level is 1x1 from columns 0 and 1.
    let (glow, m) = glow_chain_of(vec![0, 10, 255], (3, 1));
    assert_eq!(m, 2);
    assert_eq!(glow, [0, 10, 255, 5]);
    // 2x2 -> 1x1: (1 + 2 + 3 + 4 + 2) / 4 = 3.
    let (glow, m) = glow_chain_of(vec![1, 2, 3, 4], (2, 2));
    assert_eq!(m, 2);
    assert_eq!(glow, [1, 2, 3, 4, 3]);
    // 1x3 -> 1x1: the odd row clamps to row 1.
    let (glow, _) = glow_chain_of(vec![8, 4, 100], (1, 3));
    assert_eq!(glow, [8, 4, 100, 6]);
}

#[test]
fn a_single_texel_is_its_own_chain() {
    assert_eq!(glow_chain_of(vec![77], (1, 1)), (vec![77], 1));
}
