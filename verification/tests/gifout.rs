use imagespin::gifout::{frame_delay, Palette};

/// Pure red and pure blue, half and half.
fn red_and_blue() -> Vec<u8> {
    let mut v = Vec::new();
    for i in 0..64 {
        if i % 2 == 0 {
            v.extend([255, 0, 0]);
        } else {
            v.extend([0, 0, 255]);
        }
    }
    v
}

fn entry(p: &Palette, i: u8) -> [u8; 3] {
    let k = i as usize * 3;
    [p.rgb[k], p.rgb[k + 1], p.rgb[k + 2]]
}

#[test]
fn the_background_is_always_in_the_palette() {
    let p = Palette::build(&red_and_blue(), 2, [0, 0, 0]);
    let n = p.rgb.len() / 3;
    assert!((2..=255).contains(&n));
    assert!((0..n).any(|i| entry(&p, i as u8) == [0, 0, 0]));
    assert_eq!(p.transparent as usize, n);
}

#[test]
fn a_colour_in_the_palette_maps_to_itself() {
    let p = Palette::build(&red_and_blue(), 4, [0, 0, 0]);
    assert_eq!(entry(&p, p.index(&[0, 0, 0])), [0, 0, 0]);
    let q = Palette::build(&red_and_blue(), 2, [10, 200, 30]);
    // The cube cell of (10, 200, 30) stands for (8, 205, 24), and the background is the
    // nearest entry to it of anything trained on red and blue.
    assert_eq!(entry(&q, q.index(&[10, 200, 30])), [10, 200, 30]);
}

#[test]
fn colour_counts_are_clamped_to_what_a_gif_can_hold() {
    let p = Palette::build(&red_and_blue(), 0, [0, 0, 0]);
    let n = p.rgb.len() / 3;
    assert!(n == 2 || n == 3, "{n}");
    // At most 255 colours, so the transparency index lies past every one of them.
    let p = Palette::build(&red_and_blue(), 1000, [0, 0, 0]);
    assert_eq!(p.rgb.len(), 255 * 3);
    assert_eq!(p.transparent, 255);
    assert_eq!(p.colour_slice(), &p.rgb[..]);
    assert_eq!(p.transparent_slot(), 255);
}

#[test]
fn map_rect_crops_row_by_row() {
    let p = Palette::build(&red_and_blue(), 4, [0, 0, 0]);
    // A 3x2 image: black, black, white / black, black, black.
    let img = [0, 0, 0, 0, 0, 0, 255, 255, 255, 0, 0, 0, 0, 0, 0, 0, 0, 0];
    let black = p.index(&[0, 0, 0]);
    let white = p.index(&[255, 255, 255]);
    let out = p.map_rect(&img, 3, (1, 0, 2, 2));
    assert_eq!(out, [black, white, black, black]);
    assert!(p.map_rect(&img, 3, (0, 0, 0, 2)).is_empty());
}

#[test]
fn delta_leaves_what_is_already_shown() {
    let p = Palette::build(&red_and_blue(), 4, [0, 0, 0]);
    let black = p.index(&[0, 0, 0]);
    let red = p.index(&[255, 0, 0]);
    assert_ne!(black, red);
    let mut cur = vec![black, red, red];
    let mut shown = vec![black, black, red];
    let changed = p.delta(&mut cur, &mut shown, 0);
    assert_eq!(changed, 1);
    assert_eq!(cur, [p.transparent, red, p.transparent]);
    assert_eq!(shown, [black, red, red]);
}

#[test]
fn delta_with_a_wide_tolerance_redraws_nothing() {
    let p = Palette::build(&red_and_blue(), 4, [0, 0, 0]);
    let black = p.index(&[0, 0, 0]);
    let red = p.index(&[255, 0, 0]);
    let mut cur = vec![red, red];
    let mut shown = vec![black, red];
    assert_eq!(p.delta(&mut cur, &mut shown, 3 * 255 * 255), 0);
    assert_eq!(cur, [p.transparent, p.transparent]);
    assert_eq!(shown, [black, red]);
}

#[test]
fn gif_colours_come_in_powers_of_two() {
    let p = Palette::build(&red_and_blue(), 2, [0, 0, 0]);
    let g = p.gif_colours();
    let entries = g.len() / 3;
    assert!(entries.is_power_of_two() && entries >= p.transparent as usize + 1 && entries >= 2);
    assert!(entries / 2 < p.transparent as usize + 1 || entries == 2);
    assert_eq!(&g[..p.rgb.len()], &p.rgb[..]);
    assert!(g[p.rgb.len()..].iter().all(|&b| b == 0));
    // A full palette: 255 colours and the transparency slot make 256 entries.
    let full = Palette::build(&red_and_blue(), 256, [0, 0, 0]);
    assert_eq!(full.transparent, 255);
    let g = full.gif_colours();
    assert_eq!(g.len(), 256 * 3);
    assert_eq!(&g[..255 * 3], &full.rgb[..]);
    assert_eq!(&g[255 * 3..], &[0, 0, 0]);
}

#[test]
fn frame_delay_is_hundredths_rounded_and_at_least_two() {
    assert_eq!(frame_delay(25), 4);
    assert_eq!(frame_delay(30), 3);
    assert_eq!(frame_delay(8), 13);
    assert_eq!(frame_delay(40), 3);
    assert_eq!(frame_delay(60), 2);
    assert_eq!(frame_delay(100), 2);
    assert_eq!(frame_delay(1), 100);
    assert_eq!(frame_delay(0), u16::MAX);
}
