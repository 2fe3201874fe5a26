use imagespin::glyphs::{find_blobs, ink_mask, Blob};

/// A `w`x`h` mask with the given pixels lit.
fn mask(w: u32, h: u32, lit: &[(u32, u32)]) -> Vec<bool> {
    let mut m = vec![false; (w * h) as usize];
    for &(x, y) in lit {
        m[(y * w + x) as usize] = true;
    }
    m
}

/// Every pixel of a `w`x`h` box at (x, y).
fn square(x: u32, y: u32, w: u32, h: u32) -> Vec<(u32, u32)> {
    let mut v = Vec::new();
    for dy in 0..h {
        for dx in 0..w {
            v.push((x + dx, y + dy));
        }
    }
    v
}

#[test]
fn ink_is_bright_by_luma() {
    let rgb = [255, 255, 255, 0, 0, 0, 200, 0, 0, 201, 0, 0, 0, 103, 0];
    // 200 * 299 = 59800 is not over 60000; 201 * 299 = 60099 is.
    assert_eq!(ink_mask(&rgb), [true, false, false, true, true]);
    assert!(ink_mask(&[]).is_empty());
    // A trailing partial pixel is no pixel.
    assert_eq!(ink_mask(&[255, 255, 255, 255, 255]), [true]);
}

#[test]
fn a_glyph_sized_blob_is_found_and_measured() {
    let (w, h) = (20, 12);
    let lit = mask(w, h, &square(3, 2, 5, 4));
    let inside = vec![true; (w * h) as usize];
    let found = find_blobs(&lit, &inside, w, h);
    assert_eq!(
        found,
        [Blob { lo_x: 3, hi_x: 7, lo_y: 2, hi_y: 5, sum_x: 4 * (3 + 4 + 5 + 6 + 7), sum_y: 5 * (2 + 3 + 4 + 5), count: 20 }]
    );
}

#[test]
fn specks_and_thin_lines_are_not_glyphs() {
    let (w, h) = (30, 10);
    let mut px = square(1, 1, 3, 3); // too small
    px.extend(square(10, 2, 20, 2)); // too thin
    // The outline of a 4x4 box: big enough, but 12 pixels are too few.
    px.extend([(5, 5), (6, 5), (7, 5), (8, 5), (5, 6), (8, 6), (5, 7), (8, 7), (5, 8), (6, 8), (7, 8), (8, 8)]);
    let lit = mask(w, h, &px);
    let inside = vec![true; (w * h) as usize];
    assert!(find_blobs(&lit, &inside, w, h).is_empty());
}

#[test]
fn corners_join_pixels_into_one_blob() {
    let (w, h) = (12, 12);
    // Two 4x4 squares touching only at a corner, and 32 pixels in all.
    let mut px = square(0, 0, 4, 4);
    px.extend(square(4, 4, 4, 4));
    let lit = mask(w, h, &px);
    let inside = vec![true; (w * h) as usize];
    let found = find_blobs(&lit, &inside, w, h);
    assert_eq!(found.len(), 1);
    assert_eq!((found[0].lo_x, found[0].hi_x, found[0].lo_y, found[0].hi_y, found[0].count), (0, 7, 0, 7, 32));
}

#[test]
fn blobs_come_in_the_order_their_first_pixel_is_met() {
    let (w, h) = (20, 20);
    let mut px = square(12, 1, 4, 4);
    px.extend(square(1, 10, 5, 5));
    px.extend(square(1, 2, 4, 4));
    let lit = mask(w, h, &px);
    let inside = vec![true; (w * h) as usize];
    let found = find_blobs(&lit, &inside, w, h);
    let tops: Vec<(u32, u32)> = found.iter().map(|b| (b.lo_x, b.lo_y)).collect();
    assert_eq!(tops, [(12, 1), (1, 2), (1, 10)]);
}

#[test]
fn a_blob_is_found_from_inside_the_plate_but_flooded_whole() {
    let (w, h) = (10, 10);
    let lit = mask(w, h, &square(2, 2, 5, 5));
    // Only the last column of the square is inside the plate.
    let mut inside = vec![false; (w * h) as usize];
    for y in 0..h {
        inside[(y * w + 6) as usize] = true;
    }
    let found = find_blobs(&lit, &inside, w, h);
    assert_eq!(found.len(), 1);
    assert_eq!((found[0].lo_x, found[0].hi_x, found[0].count), (2, 6, 25));
    // Nothing inside the plate: nothing found.
    assert!(find_blobs(&lit, &vec![false; (w * h) as usize], w, h).is_empty());
}

#[test]
fn the_ruling_is_not_a_glyph() {
    // One long line, far wider than any glyph.
    let (w, h) = (300, 6);
    let lit = mask(w, h, &square(0, 1, 300, 4));
    let inside = vec![true; (w * h) as usize];
    assert!(find_blobs(&lit, &inside, w, h).is_empty());
}

#[test]
fn an_empty_image_has_no_glyphs() {
    assert!(find_blobs(&[], &[], 0, 0).is_empty());
    assert!(find_blobs(&[], &[], 7, 0).is_empty());
}
