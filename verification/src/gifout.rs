//! GIF output with a single global palette.
//!
//! Rotation only resamples colours that already exist in the source, so one palette
//! built from the source serves every frame. That avoids the frame-to-frame flicker
//! you get from per-frame quantisation, and shrinks the file.

use vstd::prelude::*;

verus! {

/// The RGBA colour map that NeuQuant trains on `pixels` (RGBA) with `colors` entries and
/// sample factor 10.
pub uninterp spec fn neuquant_map(pixels: Seq<u8>, colors: nat) -> Seq<u8>;

/// `color_quant::NeuQuant::new(10, colors, pixels).color_map_rgba()`: the trained colour
/// map, four bytes (RGBA) for each of its `colors` entries. Which colours it picks is
/// NeuQuant's own business and is only named here.
#[verifier::external_body]
fn neuquant(pixels: &[u8], colors: usize) -> (map: Vec<u8>)
    requires
        2 <= colors <= 256,
    ensures
        map@ == neuquant_map(pixels@, colors as nat),
        map@.len() == 4 * colors,
{
    color_quant::NeuQuant::new(10, colors, pixels).color_map_rgba()
}

/// `src` (packed RGB) as opaque RGBA; a trailing partial pixel is dropped.
pub open spec fn opaque_rgba(src: Seq<u8>) -> Seq<u8> {
    Seq::new(
        (src.len() / 3 * 4) as nat,
        |i: int| if i % 4 == 3 { 255u8 } else { src[(i / 4) * 3 + i % 4] },
    )
}

/// The RGB part of an RGBA colour map.
pub open spec fn rgb_of_rgba(map: Seq<u8>) -> Seq<u8> {
    Seq::new((map.len() / 4 * 3) as nat, |i: int| map[(i / 3) * 4 + i % 3])
}

/// Whether entry `i` of the RGB palette `rgb` is exactly `c`.
pub open spec fn entry_is(rgb: Seq<u8>, i: int, c: [u8; 3]) -> bool {
    rgb[3 * i] == c[0] && rgb[3 * i + 1] == c[1] && rgb[3 * i + 2] == c[2]
}

/// Whether the RGB palette `rgb` holds the colour `c`.
pub open spec fn has_colour(rgb: Seq<u8>, c: [u8; 3]) -> bool {
    exists|i: int| 0 <= i < rgb.len() / 3 && entry_is(rgb, i, c)
}

/// The most real colours a palette holds: one index of the 256 a GIF frame can use is kept
/// past them all for transparency.
pub const MAX_COLOURS: usize = 255;

/// The palette with the background guaranteed in it: added at the end when there is room,
/// otherwise written over the first entry.
pub open spec fn with_background(rgb: Seq<u8>, bg: [u8; 3]) -> Seq<u8> {
    if has_colour(rgb, bg) {
        rgb
    } else if rgb.len() / 3 < MAX_COLOURS {
        rgb + seq![bg[0], bg[1], bg[2]]
    } else {
        seq![bg[0], bg[1], bg[2]] + rgb.skip(3)
    }
}

/// How many colours are trained for a request of `colors`: clamped to 2..=`MAX_COLOURS`.
pub open spec fn palette_size(colors: nat) -> nat {
    if colors < 2 { 2 } else if colors > MAX_COLOURS { MAX_COLOURS as nat } else { colors }
}

/// The RGB colours NeuQuant trains on the packed RGB pixels `src` for a request of `colors`.
pub open spec fn trained_colours(src: Seq<u8>, colors: nat) -> Seq<u8> {
    rgb_of_rgba(neuquant_map(opaque_rgba(src), palette_size(colors)))
}

/// The RGB palette `Palette::build` ends up with for these arguments.
pub open spec fn built_palette(src: Seq<u8>, colors: nat, bg: [u8; 3]) -> Seq<u8> {
    with_background(trained_colours(src, colors), bg)
}

/// Guaranteeing the background loses nothing while there is room: the background is then
/// among the colours; a palette that already holds it is left as it is; otherwise, while
/// the palette is not full, it gains exactly one colour and every trained entry stays at
/// its index; only a full palette gives up an entry (the first) for it.
pub proof fn lemma_background_joins_the_trained(rgb: Seq<u8>, bg: [u8; 3])
    requires
        rgb.len() % 3 == 0,
        rgb.len() >= 3,
        rgb.len() / 3 <= MAX_COLOURS,
    ensures
        has_colour(with_background(rgb, bg), bg),
        has_colour(rgb, bg) ==> with_background(rgb, bg) == rgb,
        rgb.len() / 3 < MAX_COLOURS ==> with_background(rgb, bg).take(rgb.len() as int) == rgb,
        rgb.len() / 3 < MAX_COLOURS ==> with_background(rgb, bg).len() == rgb.len() + if has_colour(
            rgb,
            bg,
        ) {
            0int
        } else {
            3int
        },
        with_background(rgb, bg).len() % 3 == 0,
        with_background(rgb, bg).len() / 3 <= MAX_COLOURS,
        rgb.len() / 3 == MAX_COLOURS && !has_colour(rgb, bg) ==> with_background(rgb, bg).skip(3)
            == rgb.skip(3),
{
    let out = with_background(rgb, bg);
    let n = rgb.len() / 3;
    if !has_colour(rgb, bg) {
        if n < MAX_COLOURS {
            assert(out.take(rgb.len() as int) == rgb);
            assert(entry_is(out, n as int, bg));
            assert(out.len() / 3 == n + 1);
        } else {
            assert(entry_is(out, 0, bg));
            assert(out.skip(3) == rgb.skip(3));
        }
    } else {
        assert(out.take(rgb.len() as int) == rgb);
    }
}


pub open spec fn sq(x: int) -> int {
    x * x
}

/// Squared RGB distance between entry `i` of `rgb` and the colour `(r, g, b)`.
pub open spec fn dist_to(rgb: Seq<u8>, i: int, r: int, g: int, b: int) -> int {
    sq(rgb[3 * i] - r) + sq(rgb[3 * i + 1] - g) + sq(rgb[3 * i + 2] - b)
}

/// Squared RGB distance between entries `a` and `b` of `rgb`.
pub open spec fn dist_between(rgb: Seq<u8>, a: int, b: int) -> int {
    dist_to(rgb, a, rgb[3 * b] as int, rgb[3 * b + 1] as int, rgb[3 * b + 2] as int)
}

/// Whether `best` is the entry of the `n`-colour palette `rgb` nearest to `(r, g, b)`,
/// the first one on a tie.
pub open spec fn is_nearest(rgb: Seq<u8>, n: int, r: int, g: int, b: int, best: int) -> bool {
    &&& 0 <= best < n
    &&& forall|j: int| 0 <= j < n ==> dist_to(rgb, best, r, g, b) <= #[trigger] dist_to(rgb, j, r, g, b)
    &&& forall|j: int| 0 <= j < best ==> dist_to(rgb, best, r, g, b) < #[trigger] dist_to(rgb, j, r, g, b)
}

/// The colour a 5-bit-per-channel lookup cell stands for: each channel spread over 0..255.
pub open spec fn cell_channel(v: int) -> int {
    v * 255 / 31
}

/// The lookup cell of an RGB colour: the top five bits of each channel.
pub open spec fn cell_of(r: u8, g: u8, b: u8) -> int {
    (r / 8) * 1024 + (g / 8) * 32 + b / 8
}

/// Whether `lut` maps every cell to the palette entry nearest the colour it stands for.
pub open spec fn lut_is_nearest(rgb: Seq<u8>, n: int, lut: Seq<u8>, upto: int) -> bool {
    forall|k: int|
        0 <= k < upto ==> is_nearest(
            rgb,
            n,
            cell_channel(k / 1024),
            cell_channel((k / 32) % 32),
            cell_channel(k % 32),
            #[trigger] lut[k] as int,
        )
}

/// Quantised palette plus a 32^3 RGB→index lookup cube.
pub struct Palette {
    pub rgb: Vec<u8>,
    lut: Vec<u8>,
    pub transparent: u8,
}

impl Palette {
    /// The palette's colours, three bytes (RGB) each: the field `rgb`.
    pub closed spec fn colour_bytes(&self) -> Seq<u8> {
        self.rgb@
    }

    /// The index that stands for "leave the pixel as it was": the field `transparent`.
    pub closed spec fn transparent_index(&self) -> u8 {
        self.transparent
    }

    /// How many colours the palette holds.
    pub open spec fn colours(&self) -> int {
        (self.colour_bytes().len() / 3) as int
    }

    /// The palette entry the lookup cube gives for cell `k`.
    pub closed spec fn lut_at(&self, k: int) -> int {
        self.lut@[k] as int
    }

    /// A palette of 2 to `MAX_COLOURS` whole colours, whose transparency index is the slot
    /// past the last colour, and whose lookup cube gives the nearest entry to
    /// every cell.
    pub closed spec fn wf(&self) -> bool {
        &&& self.colour_bytes().len() % 3 == 0
        &&& 2 <= self.colours() <= MAX_COLOURS
        &&& self.transparent as int == self.colours()
        &&& self.lut@.len() == 32768
        &&& lut_is_nearest(self.colour_bytes(), self.colours(), self.lut@, 32768)
    }

    /// The palette entry nearest the colour `(r, g, b)` stands for once reduced to its
    /// lookup cell.
    pub open spec fn nearest_for(&self, r: u8, g: u8, b: u8) -> int {
        self.lut_at(cell_of(r, g, b))
    }

    /// The palette's colours, three bytes (RGB) each: what the field `rgb` holds.
    pub fn colour_slice(&self) -> (c: &[u8])
        ensures
            c@ == self.colour_bytes(),
    {
        self.rgb.as_slice()
    }

    /// The transparency index: what the field `transparent` holds.
    pub fn transparent_slot(&self) -> (t: u8)
        ensures
            t == self.transparent_index(),
    {
        self.transparent
    }

    /// A well-formed palette holds whole colours, 2 to `MAX_COLOURS` of them, and its
    /// transparency index is the slot past every one of them.
    pub proof fn lemma_shape(&self)
        requires
            self.wf(),
        ensures
            self.colour_bytes().len() % 3 == 0,
            2 <= self.colours() <= MAX_COLOURS,
            self.transparent_index() as int == self.colours(),
    {
    }

    /// `lut_at` names the nearest palette entry to each cell.
    pub proof fn lemma_lut_nearest(&self, k: int)
        requires
            self.wf(),
            0 <= k < 32768,
        ensures
            is_nearest(
                self.colour_bytes(),
                self.colours(),
                cell_channel(k / 1024),
                cell_channel((k / 32) % 32),
                cell_channel(k % 32),
                self.lut_at(k),
            ),
    {
    }

    /// A palette of `colors` (clamped to 2..=`MAX_COLOURS`) trained on the packed RGB pixels of
    /// `src_rgb`, guaranteed to hold `background` exactly, with one slot past the real
    /// colours reserved as the transparency index, and a lookup cube from every 5-bit RGB
    /// cell to its nearest entry.
    pub fn build(src_rgb: &[u8], colors: usize, background: [u8; 3]) -> (p: Self)
        ensures
            p.wf(),
            p.colour_bytes() == built_palette(src_rgb@, colors as nat, background),
            has_colour(p.colour_bytes(), background),
            trained_colours(src_rgb@, colors as nat).len() == 3 * palette_size(colors as nat),
            palette_size(colors as nat) < MAX_COLOURS ==> p.colour_bytes().take(
                3 * palette_size(colors as nat) as int,
            ) == trained_colours(src_rgb@, colors as nat),
            palette_size(colors as nat) < MAX_COLOURS ==> p.colours() == palette_size(colors as nat)
                + if has_colour(trained_colours(src_rgb@, colors as nat), background) {
                0int
            } else {
                1int
            },
    {
        // NeuQuant wants RGBA.
        let mut rgba: Vec<u8> = Vec::new();
        let mut k: usize = 0;
        while src_rgb.len() - k >= 3
            invariant
                k % 3 == 0,
                k <= src_rgb@.len(),
                rgba@.len() == k / 3 * 4,
                forall|i: int| 0 <= i < rgba@.len() ==> #[trigger] rgba@[i] == opaque_rgba(src_rgb@)[i],
            decreases src_rgb@.len() - k,
        {
            rgba.push(src_rgb[k]);
            rgba.push(src_rgb[k + 1]);
            rgba.push(src_rgb[k + 2]);
            rgba.push(255);
            proof {
                assert forall|i: int| k / 3 * 4 <= i < (k + 3) / 3 * 4 implies #[trigger] rgba@[i]
                    == opaque_rgba(src_rgb@)[i] by {
                    assert(i / 4 == k / 3);
                }
            }
            k += 3;
        }
        assert(rgba@ == opaque_rgba(src_rgb@)) by {
            assert(k / 3 == src_rgb@.len() / 3);
        }
        let n0: usize = if colors < 2 { 2 } else if colors > MAX_COLOURS { MAX_COLOURS } else { colors };
        let map = neuquant(&rgba, n0);
        let mut rgb: Vec<u8> = Vec::new();
        let mut j: usize = 0;
        while j < n0
            invariant
                j <= n0 <= MAX_COLOURS,
                map@.len() == 4 * n0,
                rgb@.len() == 3 * j,
                forall|i: int| 0 <= i < rgb@.len() ==> #[trigger] rgb@[i] == rgb_of_rgba(map@)[i],
            decreases n0 - j,
        {
            rgb.push(map[4 * j]);
            rgb.push(map[4 * j + 1]);
            rgb.push(map[4 * j + 2]);
            proof {
                assert forall|i: int| 3 * j <= i < 3 * j + 3 implies #[trigger] rgb@[i]
                    == rgb_of_rgba(map@)[i] by {
                    assert(i / 3 == j);
                }
            }
            j += 1;
        }
        assert(rgb@ == rgb_of_rgba(map@));
        let ghost trained = rgb@;

        // Guarantee the exact background colour is present, so the area outside the
        // disc is not dithered into a near-miss.
        let mut has_bg = false;
        let mut i: usize = 0;
        while i < n0
            invariant
                i <= n0 <= MAX_COLOURS,
                rgb@.len() == 3 * n0,
                has_bg <==> exists|m: int| 0 <= m < i && entry_is(rgb@, m, background),
            decreases n0 - i,
        {
            if rgb[3 * i] == background[0] && rgb[3 * i + 1] == background[1] && rgb[3 * i + 2]
                == background[2] {
                has_bg = true;
            }
            proof {
                if !entry_is(rgb@, i as int, background) {
                    assert forall|m: int| 0 <= m < i + 1 && entry_is(rgb@, m, background) implies m < i by {}
                }
            }
            i += 1;
        }
        if !has_bg {
            if n0 < MAX_COLOURS {
                rgb.push(background[0]);
                rgb.push(background[1]);
                rgb.push(background[2]);
                assert(rgb@ == trained + seq![background[0], background[1], background[2]]);
            } else {
                rgb.set(0, background[0]);
                rgb.set(1, background[1]);
                rgb.set(2, background[2]);
                assert(rgb@ == seq![background[0], background[1], background[2]] + trained.skip(3));
            }
        }
        proof {
            if has_bg {
                assert(has_colour(rgb@, background));
            } else {
                assert(entry_is(rgb@, if n0 < MAX_COLOURS { n0 as int } else { 0 }, background));
            }
            assert(trained == trained_colours(src_rgb@, colors as nat));
            lemma_background_joins_the_trained(trained, background);
        }
        let n = rgb.len() / 3;
        // Reserve one slot past the real colours as the transparency index used for
        // inter-frame delta encoding.
        let transparent = n as u8;

        // Precompute nearest-palette-index for every 5-bit RGB cell.
        let mut lut: Vec<u8> = Vec::new();
        let mut cell: usize = 0;
        while cell < 32768
            invariant
                rgb@.len() == 3 * n,
                2 <= n <= MAX_COLOURS,
                lut@.len() == cell,
                cell <= 32768,
                lut_is_nearest(rgb@, n as int, lut@, cell as int),
            decreases 32768 - cell,
        {
            let tr = ((cell / 1024) * 255 / 31) as i32;
            let tg = (((cell / 32) % 32) * 255 / 31) as i32;
            let tb = ((cell % 32) * 255 / 31) as i32;
            let best = nearest_entry(&rgb, n, tr, tg, tb);
            lut.push(best as u8);
            proof {
                assert forall|k: int| 0 <= k < cell + 1 implies is_nearest(
                    rgb@,
                    n as int,
                    cell_channel(k / 1024),
                    cell_channel((k / 32) % 32),
                    cell_channel(k % 32),
                    #[trigger] lut@[k] as int,
                ) by {
                    if k < cell {
                        assert(lut@[k] == old_lut_at(lut@, k));
                    }
                }
            }
            cell += 1;
        }
        Palette { rgb, lut, transparent }
    }

    /// The palette entry for the RGB pixel `p[0..3]`, looked up by its 5-bit cell.
    pub fn index(&self, p: &[u8]) -> (i: u8)
        requires
            self.wf(),
            p@.len() >= 3,
        ensures
            i as int == self.nearest_for(p@[0], p@[1], p@[2]),
            is_nearest(
                self.colour_bytes(),
                self.colours(),
                cell_channel((p@[0] / 8) as int),
                cell_channel((p@[1] / 8) as int),
                cell_channel((p@[2] / 8) as int),
                i as int,
            ),
    {
        let (r, g, b) = (p[0], p[1], p[2]);
        let c = ((r >> 3u8) as usize) * 1024 + ((g >> 3u8) as usize) * 32 + (b >> 3u8) as usize;
        proof {
            assert(r >> 3u8 == r / 8) by (bit_vector);
            assert(g >> 3u8 == g / 8) by (bit_vector);
            assert(b >> 3u8 == b / 8) by (bit_vector);
            let (rr, gg, bb) = ((r / 8) as int, (g / 8) as int, (b / 8) as int);
            assert(c / 1024 == rr && (c / 32) % 32 == gg && c % 32 == bb) by (nonlinear_arith)
                requires
                    c == rr * 1024 + gg * 32 + bb,
                    0 <= rr < 32,
                    0 <= gg < 32,
                    0 <= bb < 32,
            ;
            self.lemma_lut_nearest(c as int);
        }
        self.lut[c]
    }

    /// Map an RGB buffer (stride `w`) to palette indices, cropped to a rect
    /// `(x, y, width, height)`, row by row. Row `y` of the rect starts at pixel `y * w + x`
    /// of the buffer, and the positions are worked out in `u32`.
    pub fn map_rect(&self, rgb: &[u8], w: u32, rect: (u32, u32, u32, u32)) -> (out: Vec<u8>)
        requires
            self.wf(),
            rect.1 + rect.3 <= u32::MAX,
            rect.2 * rect.3 <= u32::MAX,
            rect.3 > 0 ==> ((rect.1 + rect.3 - 1) * w + rect.0) * 3 <= u32::MAX,
            rect.3 > 0 && rect.2 > 0 ==> (rect.2 - 1) * 3 <= u32::MAX && ((rect.1 + rect.3 - 1) * w
                + rect.0 + rect.2) * 3 <= rgb@.len(),
        ensures
            out@.len() == rect.2 * rect.3,
            forall|k: int|
                0 <= k < out@.len() ==> {
                    let at = rect_pixel(w as int, rect.0 as int, rect.1 as int, rect.2 as int, k);
                    #[trigger] out@[k] as int == self.nearest_for(rgb@[at], rgb@[at + 1], rgb@[at + 2])
                },
    {
        let (x0, y0, rw, rh) = rect;
        let mut out: Vec<u8> = Vec::new();
        let mut y = y0;
        let y1 = y0 + rh;
        while y < y1
            invariant
                self.wf(),
                y1 == y0 + rh,
                y0 + rh <= u32::MAX,
                rh > 0 ==> ((y0 + rh - 1) * w + x0) * 3 <= u32::MAX,
                rh > 0 && rw > 0 ==> (rw - 1) * 3 <= u32::MAX && ((y0 + rh - 1) * w + x0 + rw) * 3
                    <= rgb@.len(),
                y0 <= y <= y0 + rh,
                out@.len() == (y - y0) * rw,
                forall|k: int|
                    0 <= k < out@.len() ==> {
                        let at = rect_pixel(w as int, x0 as int, y0 as int, rw as int, k);
                        #[trigger] out@[k] as int == self.nearest_for(rgb@[at], rgb@[at + 1], rgb@[at + 2])
                    },
            decreases y0 + rh - y,
        {
            proof {
                assert((y * w + x0) * 3 <= ((y0 + rh - 1) * w + x0) * 3) by (nonlinear_arith)
                    requires
                        y <= y0 + rh - 1,
                ;
                if rw > 0 {
                    assert((y * w + x0 + rw) * 3 <= ((y0 + rh - 1) * w + x0 + rw) * 3)
                        by (nonlinear_arith)
                        requires
                            y <= y0 + rh - 1,
                    ;
                }
            }
            let row = ((y * w + x0) * 3) as usize;
            let ghost before = out@;
            self.map_row(rgb, row, rw as usize, &mut out);
            proof {
                assert forall|k: int| 0 <= k < out@.len() implies {
                    let at = rect_pixel(w as int, x0 as int, y0 as int, rw as int, k);
                    #[trigger] out@[k] as int == self.nearest_for(rgb@[at], rgb@[at + 1], rgb@[at + 2])
                } by {
                    if k < before.len() {
                        assert(out@[k] == before[k]);
                    } else {
                        let x = k - before.len();
                        assert(out@[k] == out@[before.len() + x]);
                        assert(k / (rw as int) == y - y0 && k % (rw as int) == x) by (nonlinear_arith)
                            requires
                                k == (y - y0) * rw + x,
                                0 <= x < rw,
                        ;
                        assert(row + 3 * x == rect_pixel(w as int, x0 as int, y0 as int, rw as int, k)) by (nonlinear_arith)
                            requires
                                row == (y * w + x0) * 3,
                                k / (rw as int) == y - y0,
                                k % (rw as int) == x,
                        ;
                    }
                }
                assert((y - y0) * rw + rw == (y + 1 - y0) * rw) by (nonlinear_arith);
            }
            y += 1;
        }
        assert((y - y0) * rw == rw * rh) by (nonlinear_arith)
            requires
                y == y0 + rh,
        ;
        out
    }

    /// Append the palette entries for the `rw` packed RGB pixels starting at `row`.
    fn map_row(&self, rgb: &[u8], row: usize, rw: usize, out: &mut Vec<u8>)
        requires
            self.wf(),
            rw > 0 ==> row + 3 * rw <= rgb@.len(),
        ensures
            final(out)@.len() == old(out)@.len() + rw,
            forall|k: int| 0 <= k < old(out)@.len() ==> #[trigger] final(out)@[k] == old(out)@[k],
            forall|x: int|
                0 <= x < rw ==> #[trigger] final(out)@[old(out)@.len() + x] as int == self.nearest_for(
                    rgb@[row + 3 * x],
                    rgb@[row + 3 * x + 1],
                    rgb@[row + 3 * x + 2],
                ),
    {
        let mut x: usize = 0;
        while x < rw
            invariant
                self.wf(),
                rw > 0 ==> row + 3 * rw <= rgb@.len(),
                x <= rw,
                out@.len() == old(out)@.len() + x,
                forall|k: int| 0 <= k < old(out)@.len() ==> #[trigger] out@[k] == old(out)@[k],
                forall|j: int|
                    0 <= j < x ==> #[trigger] out@[old(out)@.len() + j] as int == self.nearest_for(
                        rgb@[row + 3 * j],
                        rgb@[row + 3 * j + 1],
                        rgb@[row + 3 * j + 2],
                    ),
            decreases rw - x,
        {
            assert(row + 3 * rw <= rgb.len());
            assert(row + 3 * x + 3 <= row + 3 * rw);
            let p = row + 3 * x;
            let px = [rgb[p], rgb[p + 1], rgb[p + 2]];
            let v = self.index(&px);
            out.push(v);
            x += 1;
        }
    }

    /// Squared RGB distance between two palette entries.
    fn dist2(&self, a: u8, b: u8) -> (d: i32)
        requires
            self.wf(),
            (a as int) < self.colours(),
            (b as int) < self.colours(),
        ensures
            d == dist_between(self.colour_bytes(), a as int, b as int),
    {
        let (a, b) = (a as usize * 3, b as usize * 3);
        let dr = self.rgb[a] as i32 - self.rgb[b] as i32;
        let dg = self.rgb[a + 1] as i32 - self.rgb[b + 1] as i32;
        let db = self.rgb[a + 2] as i32 - self.rgb[b + 2] as i32;
        proof {
            assert(0 <= dr * dr <= 65025 && 0 <= dg * dg <= 65025 && 0 <= db * db <= 65025) by (nonlinear_arith)
                requires
                    -255 <= dr <= 255,
                    -255 <= dg <= 255,
                    -255 <= db <= 255,
            ;
        }
        dr * dr + dg * dg + db * db
    }

    /// Delta-encode `cur` against what is currently on screen, pixel by pixel over the
    /// length both share, and count the pixels that changed.
    ///
    /// The artwork is sparse gold lines on a flat ground, so most of the disc keeps
    /// essentially the same colour from frame to frame; letting those pixels fall through
    /// to the previous frame shrinks the file a lot. `tol` is a squared-RGB threshold —
    /// a pixel within it of the displayed colour is made transparent and left alone.
    ///
    /// `shown` is updated to track what the viewer will actually see, so the error a
    /// pixel can accumulate stays bounded by `tol` no matter how many frames it skips.
    pub fn delta(&self, cur: &mut [u8], shown: &mut [u8], tol: i32) -> (changed: usize)
        requires
            self.wf(),
            forall|i: int|
                0 <= i < old(cur)@.len() && i < old(shown)@.len() && old(cur)@[i] != old(shown)@[i]
                    ==> (old(cur)@[i] as int) < self.colours() && (old(shown)@[i] as int)
                    < self.colours(),
        ensures
            final(cur)@.len() == old(cur)@.len(),
            final(shown)@.len() == old(shown)@.len(),
            forall|i: int|
                0 <= i < old(cur)@.len() && i < old(shown)@.len() ==> delta_pixel(
                    self.colour_bytes(),
                    self.transparent_index(),
                    tol,
                    old(cur)@[i],
                    old(shown)@[i],
                    #[trigger] final(cur)@[i],
                    final(shown)@[i],
                ),
            forall|i: int|
                old(shown)@.len() <= i < old(cur)@.len() ==> final(cur)@[i] == old(cur)@[i],
            forall|i: int|
                old(cur)@.len() <= i < old(shown)@.len() ==> final(shown)@[i] == old(shown)@[i],
            changed == redrawn(self.colour_bytes(), old(cur)@, old(shown)@, tol, common_len(old(cur)@, old(shown)@)),
    {
        let m = if cur.len() < shown.len() { cur.len() } else { shown.len() };
        let mut changed: usize = 0;
        let mut i: usize = 0;
        while i < m
            invariant
                self.wf(),
                m == common_len(old(cur)@, old(shown)@),
                i <= m,
                cur@.len() == old(cur)@.len(),
                shown@.len() == old(shown)@.len(),
                forall|k: int|
                    0 <= k < old(cur)@.len() && k < old(shown)@.len() && old(cur)@[k] != old(shown)@[k]
                        ==> (old(cur)@[k] as int) < self.colours() && (old(shown)@[k] as int)
                        < self.colours(),
                forall|k: int|
                    0 <= k < i ==> delta_pixel(
                        self.colour_bytes(),
                        self.transparent_index(),
                        tol,
                        old(cur)@[k],
                        old(shown)@[k],
                        #[trigger] cur@[k],
                        shown@[k],
                    ),
                forall|k: int| i <= k < cur@.len() ==> cur@[k] == old(cur)@[k],
                forall|k: int| i <= k < shown@.len() ==> shown@[k] == old(shown)@[k],
                changed == redrawn(self.colour_bytes(), old(cur)@, old(shown)@, tol, i as int),
                changed <= i,
            decreases m - i,
        {
            let (c, s) = (cur[i], shown[i]);
            if c == s || self.dist2(c, s) <= tol {
                cur[i] = self.transparent;
            } else {
                shown[i] = c;
                changed += 1;
            }
            i += 1;
        }
        changed
    }
}

/// Where the `k`th pixel of a `rw`-wide rect at `(x0, y0)` starts in a packed RGB buffer
/// `w` pixels wide.
pub open spec fn rect_pixel(w: int, x0: int, y0: int, rw: int, k: int) -> int {
    ((y0 + k / rw) * w + x0 + k % rw) * 3
}

/// The length `cur` and `shown` share.
pub open spec fn common_len(cur: Seq<u8>, shown: Seq<u8>) -> int {
    if cur.len() < shown.len() { cur.len() as int } else { shown.len() as int }
}

/// Whether a pixel that should be `c` may keep showing `s`: the same entry, or within `tol`.
pub open spec fn keeps(rgb: Seq<u8>, c: u8, s: u8, tol: i32) -> bool {
    c == s || dist_between(rgb, c as int, s as int) <= tol
}

/// What delta encoding does to one pixel that should be `c` while `s` is shown: a pixel
/// that may keep showing `s` becomes transparent and `s` stays on screen; any other is
/// written as `c`, which is then what is shown.
pub open spec fn delta_pixel(rgb: Seq<u8>, transparent: u8, tol: i32, c: u8, s: u8, new_c: u8, new_s: u8) -> bool {
    if keeps(rgb, c, s, tol) {
        new_c == transparent && new_s == s
    } else {
        new_c == c && new_s == c
    }
}

/// What the viewer sees after delta encoding is never further than `tol` from the colour the
/// pixel should have, however many frames it has been skipped for: either the pixel was
/// redrawn, or what stays on screen is within `tol` of it. And a pixel is only ever left
/// transparent or written with its own colour.
pub proof fn lemma_shown_stays_within_tol(
    rgb: Seq<u8>,
    transparent: u8,
    tol: i32,
    c: u8,
    s: u8,
    new_c: u8,
    new_s: u8,
)
    requires
        delta_pixel(rgb, transparent, tol, c, s, new_c, new_s),
    ensures
        new_s == c || dist_between(rgb, c as int, new_s as int) <= tol,
        new_c == transparent || new_c == c,
{
}

/// What one pixel shows after delta encoding the first `t` frames of `wanted` (the colour
/// it should have in each frame), starting from `first` on screen.
pub open spec fn shown_after(rgb: Seq<u8>, tol: i32, wanted: Seq<u8>, first: u8, t: int) -> u8
    decreases t,
{
    if t <= 0 {
        first
    } else {
        let s = shown_after(rgb, tol, wanted, first, t - 1);
        if keeps(rgb, wanted[t - 1], s, tol) { s } else { wanted[t - 1] }
    }
}

/// The error never builds up: however many frames a pixel is skipped for, after every frame
/// what it shows is its colour in that frame or within `tol` of it.
pub proof fn lemma_error_never_accumulates(
    rgb: Seq<u8>,
    tol: i32,
    wanted: Seq<u8>,
    first: u8,
    t: int,
)
    requires
        1 <= t <= wanted.len(),
    ensures
        shown_after(rgb, tol, wanted, first, t) == wanted[t - 1] || dist_between(
            rgb,
            wanted[t - 1] as int,
            shown_after(rgb, tol, wanted, first, t) as int,
        ) <= tol,
{
    let s = shown_after(rgb, tol, wanted, first, t - 1);
    if keeps(rgb, wanted[t - 1], s, tol) {
        if wanted[t - 1] != s {
            assert(dist_between(rgb, wanted[t - 1] as int, s as int) <= tol);
        }
    }
}

/// How many of the first `upto` pixels are redrawn.
pub open spec fn redrawn(rgb: Seq<u8>, cur: Seq<u8>, shown: Seq<u8>, tol: i32, upto: int) -> nat
    decreases upto,
{
    if upto <= 0 {
        0
    } else {
        redrawn(rgb, cur, shown, tol, upto - 1) + if keeps(rgb, cur[upto - 1], shown[upto - 1], tol) {
            0nat
        } else {
            1nat
        }
    }
}

spec fn old_lut_at(lut: Seq<u8>, k: int) -> u8 {
    lut[k]
}

/// The first entry of the `n`-colour palette `rgb` nearest to `(tr, tg, tb)`.
fn nearest_entry(rgb: &Vec<u8>, n: usize, tr: i32, tg: i32, tb: i32) -> (best: usize)
    requires
        rgb@.len() == 3 * n,
        1 <= n <= 256,
        0 <= tr <= 255,
        0 <= tg <= 255,
        0 <= tb <= 255,
    ensures
        is_nearest(rgb@, n as int, tr as int, tg as int, tb as int, best as int),
{
    let mut best: usize = 0;
    let mut best_d: i32 = i32::MAX;
    let mut i: usize = 0;
    while i < n
        invariant
            rgb@.len() == 3 * n,
            1 <= n <= 256,
            i <= n,
            0 <= tr <= 255,
            0 <= tg <= 255,
            0 <= tb <= 255,
            i == 0 ==> best == 0 && best_d == i32::MAX,
            i > 0 ==> {
                &&& best < i
                &&& best_d == dist_to(rgb@, best as int, tr as int, tg as int, tb as int)
                &&& forall|j: int| 0 <= j < i ==> best_d <= #[trigger] dist_to(rgb@, j, tr as int, tg as int, tb as int)
                &&& forall|j: int| 0 <= j < best ==> best_d < #[trigger] dist_to(rgb@, j, tr as int, tg as int, tb as int)
            },
        decreases n - i,
    {
        let dr = rgb[i * 3] as i32 - tr;
        let dg = rgb[i * 3 + 1] as i32 - tg;
        let db = rgb[i * 3 + 2] as i32 - tb;
        proof {
            assert(0 <= dr * dr <= 65025 && 0 <= dg * dg <= 65025 && 0 <= db * db <= 65025) by (nonlinear_arith)
                requires
                    -255 <= dr <= 255,
                    -255 <= dg <= 255,
                    -255 <= db <= 255,
            ;
        }
        let d = dr * dr + dg * dg + db * db;
        assert(d == dist_to(rgb@, i as int, tr as int, tg as int, tb as int));
        if d < best_d {
            best_d = d;
            best = i;
        }
        i += 1;
    }
    best
}

/// Whether `p` is a power of two.
pub open spec fn is_power_of_two(p: nat) -> bool
    decreases p,
{
    p == 1 || (p >= 2 && p % 2 == 0 && is_power_of_two(p / 2))
}

/// Whether `p` is the number of entries a GIF palette covering `want` entries needs: the
/// least power of two that is at least `want`, and at least 2.
pub open spec fn gif_entries(want: nat, p: nat) -> bool {
    &&& is_power_of_two(p)
    &&& p >= want
    &&& p >= 2
    &&& (p == 2 || p / 2 < want)
}

impl Palette {
    /// The palette as the GIF header wants it: long enough to cover the transparency index,
    /// a power-of-two number of entries (at least two), with the spare ones black.
    pub fn gif_colours(&self) -> (out: Vec<u8>)
        requires
            self.wf(),
        ensures
            out@.len() % 3 == 0,
            gif_entries(self.transparent_index() as nat + 1, out@.len() / 3),
            forall|i: int| 0 <= i < out@.len() ==> #[trigger] out@[i] == if i < self.colour_bytes().len() {
                self.colour_bytes()[i]
            } else {
                0u8
            },
    {
        let want = self.transparent as usize + 1;
        let mut p: usize = 1;
        while !(p >= want && p >= 2)
            invariant
                1 <= want <= 256,
                1 <= p <= 2 * want,
                is_power_of_two(p as nat),
                p <= 2 || p / 2 < want,
            decreases 512 - p,
        {
            assert((p * 2) / 2 == p);
            p = p * 2;
        }
        let mut out: Vec<u8> = Vec::new();
        let mut i: usize = 0;
        while i < 3 * p
            invariant
                p <= 512,
                i <= 3 * p,
                out@.len() == i,
                forall|k: int| 0 <= k < i ==> #[trigger] out@[k] == if k < self.colour_bytes().len() {
                    self.colour_bytes()[k]
                } else {
                    0u8
                },
            decreases 3 * p - i,
        {
            if i < self.rgb.len() {
                out.push(self.rgb[i]);
            } else {
                out.push(0);
            }
            i += 1;
        }
        out
    }
}

/// The delay between frames in hundredths of a second, `100 / fps` rounded to nearest
/// (halves up), and never less than 2; a frame rate of 0 gives the longest delay there is.
pub open spec fn frame_delay_for(fps: u32) -> u16 {
    if fps == 0 {
        0xffff
    } else {
        let d = (200 + fps as int) / (2 * fps as int);
        if d < 2 { 2 } else { d as u16 }
    }
}

/// The GIF frame delay for `fps` frames per second, in hundredths of a second.
pub fn frame_delay(fps: u32) -> (d: u16)
    ensures
        d == frame_delay_for(fps),
{
    if fps == 0 {
        return 0xffff;
    }
    let d: u64 = (200 + fps as u64) / (2 * fps as u64);
    assert(d <= 100) by (nonlinear_arith)
        requires
            fps >= 1,
            d == (200 + fps as int) / (2 * fps as int),
    ;
    if d < 2 { 2 } else { d as u16 }
}

} // verus!
