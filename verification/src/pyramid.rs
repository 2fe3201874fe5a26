//! Mip chains for the viewer's textures: each level half the size of the one before,
//! box-filtered, down to a single texel.

use vstd::prelude::*;

verus! {

/// How many binary digits `m` takes (0 for 0).
pub open spec fn bit_length(m: nat) -> nat
    decreases m,
{
    if m == 0 {
        0
    } else {
        1 + bit_length(m / 2)
    }
}

/// The larger of `w` and `h`, and at least 1.
pub open spec fn longest_side(w: nat, h: nat) -> nat {
    let m = if w > h { w } else { h };
    if m == 0 { 1 } else { m }
}

/// Number of levels in the glow pyramid for a source of this size: one per binary digit of
/// its longest side.
pub fn glow_levels(w: u32, h: u32) -> (n: u32)
    ensures
        n == bit_length(longest_side(w as nat, h as nat)),
        1 <= n <= 32,
{
    let mut m: u32 = if w > h { w } else { h };
    if m == 0 {
        m = 1;
    }
    let ghost m0 = m;
    proof {
        lemma_bit_length_bound(m0 as nat);
    }
    let mut n: u32 = 0;
    while m > 0
        invariant
            bit_length(m0 as nat) == n + bit_length(m as nat),
            n + bit_length(m as nat) <= 32,
            m0 >= 1,
            n == 0 ==> m == m0,
        decreases m,
    {
        m = m / 2;
        n += 1;
    }
    proof {
        lemma_bit_length_bound(m0 as nat);
    }
    n
}

proof fn lemma_bit_length_bound(m: nat)
    requires
        m <= u32::MAX,
    ensures
        bit_length(m) <= 32,
        m >= 1 ==> bit_length(m) >= 1,
    decreases m,
{
    if m > 0 {
        lemma_bit_length_mono(m / 2, 0x7fff_ffff);
        lemma_bit_length_31();
    }
}

proof fn lemma_bit_length_31()
    ensures
        bit_length(0x7fff_ffff) == 31,
{
    reveal_with_fuel(bit_length, 33);
}

proof fn lemma_bit_length_mono(a: nat, b: nat)
    requires
        a <= b,
    ensures
        bit_length(a) <= bit_length(b),
    decreases b,
{
    if a > 0 {
        lemma_bit_length_mono(a / 2, b / 2);
    }
}

/// A side of the next level down: half, but never less than 1.
pub open spec fn halve(d: nat) -> nat {
    if d / 2 >= 1 { d / 2 } else { 1 }
}

/// Whether a `w`x`h` grid can be halved down to one texel: both sides at least 1, or
/// neither more than 1 (an empty grid is already its own last level).
pub open spec fn chainable(w: nat, h: nat) -> bool {
    (w >= 1 && h >= 1) || (w <= 1 && h <= 1)
}

/// How far a `w`x`h` grid is from a single texel, for termination: each halving shrinks it.
pub open spec fn side_measure(w: nat, h: nat) -> nat {
    (if w == 0 { 1 } else { w }) + (if h == 0 { 1 } else { h })
}

/// How many levels a chain from a `w`x`h` grid has: this one, then one per halving until
/// both sides are 1.
pub open spec fn chain_levels(w: nat, h: nat) -> nat
    decreases side_measure(w, h),
{
    if w <= 1 && h <= 1 {
        1
    } else {
        1 + chain_levels(halve(w), halve(h))
    }
}

/// One texel of the next level: the rounded mean of the (up to) 2x2 box of `level` under
/// it, repeating the last row or column at odd edges so no texel is dropped.
pub open spec fn box_mean(level: Seq<u8>, w: nat, h: nat, x: nat, y: nat) -> u8 {
    let (x0, y0) = (2 * x, 2 * y);
    let x1 = if x0 + 1 < w { x0 + 1 } else { (w - 1) as nat };
    let y1 = if y0 + 1 < h { y0 + 1 } else { (h - 1) as nat };
    let at = |px: nat, py: nat| level[(py * w + px) as int] as int;
    ((at(x0, y0) + at(x1, y0) + at(x0, y1) + at(x1, y1) + 2) / 4) as u8
}

/// The next level of `level`, a `w`x`h` grid: half the size, each texel a box mean.
pub open spec fn halved(level: Seq<u8>, w: nat, h: nat) -> Seq<u8> {
    let (nw, nh) = (halve(w), halve(h));
    Seq::new(nw * nh, |i: int| box_mean(level, w, h, (i % nw as int) as nat, (i / nw as int) as nat))
}

/// `level` and every level below it, concatenated largest first.
pub open spec fn glow_chain(level: Seq<u8>, w: nat, h: nat) -> Seq<u8>
    decreases side_measure(w, h),
{
    if w <= 1 && h <= 1 {
        level
    } else {
        level + glow_chain(halved(level, w, h), halve(w), halve(h))
    }
}

/// The chain has exactly as many levels as `glow_levels` says.
pub proof fn lemma_chain_levels(w: nat, h: nat)
    ensures
        chain_levels(w, h) == bit_length(longest_side(w, h)),
    decreases side_measure(w, h),
{
    if w <= 1 && h <= 1 {
        reveal_with_fuel(bit_length, 2);
    } else {
        lemma_chain_levels(halve(w), halve(h));
        let m = longest_side(w, h);
        assert(longest_side(halve(w), halve(h)) == m / 2);
        assert(bit_length(m) == 1 + bit_length(m / 2));
    }
}

/// How many texels a chain from a `w`x`h` grid holds in all.
pub open spec fn chain_texels(w: nat, h: nat) -> nat
    decreases side_measure(w, h),
{
    if w <= 1 && h <= 1 {
        w * h
    } else {
        w * h + chain_texels(halve(w), halve(h))
    }
}

proof fn lemma_chain_len(level: Seq<u8>, w: nat, h: nat)
    requires
        level.len() == w * h,
    ensures
        glow_chain(level, w, h).len() == chain_texels(w, h),
    decreases side_measure(w, h),
{
    if !(w <= 1 && h <= 1) {
        lemma_chain_len(halved(level, w, h), halve(w), halve(h));
    }
}

/// A chain starts with the level it was built from.
proof fn lemma_chain_starts_with(level: Seq<u8>, w: nat, h: nat)
    requires
        level.len() == w * h,
    ensures
        glow_chain(level, w, h).len() >= w * h,
        glow_chain(level, w, h).take((w * h) as int) == level,
{
    if !(w <= 1 && h <= 1) {
        assert((level + glow_chain(halved(level, w, h), halve(w), halve(h))).take((w * h) as int) == level);
    }
}

/// The second level of the chain box-filters the first, row by row: for the row-major
/// `w`x`h` grid `level`, texel `(x, y)` of the next level, `w / 2` wide, is the rounded
/// mean of texels `(2x, 2y)`, `(2x + 1, 2y)`, `(2x, 2y + 1)` and `(2x + 1, 2y + 1)` of
/// `level`, a last odd row or column standing in for the one past it.
pub proof fn lemma_next_level_box_filters(level: Seq<u8>, w: nat, h: nat, x: nat, y: nat)
    requires
        level.len() == w * h,
        w >= 1,
        h >= 1,
        w >= 2 || h >= 2,
        x < halve(w),
        y < halve(h),
    ensures
        ({
            let x0 = 2 * x;
            let y0 = 2 * y;
            let x1 = if x0 + 1 < w { x0 + 1 } else { x0 };
            let y1 = if y0 + 1 < h { y0 + 1 } else { y0 };
            glow_chain(level, w, h)[(w * h + y * halve(w) + x) as int] as int == (level[(y0 * w
                + x0) as int] as int + level[(y0 * w + x1) as int] as int + level[(y1 * w
                + x0) as int] as int + level[(y1 * w + x1) as int] as int + 2) / 4
        }),
{
    let (nw, nh) = (halve(w), halve(h));
    let next = halved(level, w, h);
    lemma_chain_starts_with(next, nw, nh);
    let i: int = (y * nw + x) as int;
    assert(0 <= i < nw * nh) by (nonlinear_arith)
        requires
            x < nw,
            y < nh,
            i == y * nw + x,
    ;
    assert(i % (nw as int) == x && i / (nw as int) == y) by (nonlinear_arith)
        requires
            x < nw,
            i == y * nw + x,
    ;
    assert(glow_chain(level, w, h) == level + glow_chain(next, nw, nh));
    assert(glow_chain(next, nw, nh)[i] == next[i]);
    let x0 = 2 * x;
    let y0 = 2 * y;
    assert(x0 < w && y0 < h);
    let x1 = if x0 + 1 < w { x0 + 1 } else { x0 };
    let y1 = if y0 + 1 < h { y0 + 1 } else { y0 };
    assert((if x0 + 1 < w { x0 + 1 } else { (w - 1) as nat }) == x1);
    assert((if y0 + 1 < h { y0 + 1 } else { (h - 1) as nat }) == y1);
    assert(y0 * w + x0 < w * h && y0 * w + x1 < w * h && y1 * w + x0 < w * h && y1 * w + x1 < w * h)
        by (nonlinear_arith)
        requires
            x0 < w,
            x1 < w,
            y0 < h,
            y1 < h,
    ;
}

/// The next level of the `w`x`h` grid `level`.
fn halve_level(level: &Vec<u8>, w: u32, h: u32) -> (next: Vec<u8>)
    requires
        w >= 1,
        h >= 1,
        level@.len() == w * h,
        w * h <= u32::MAX,
    ensures
        next@ == halved(level@, w as nat, h as nat),
{
    let nw: u32 = if w / 2 >= 1 { w / 2 } else { 1 };
    let nh: u32 = if h / 2 >= 1 { h / 2 } else { 1 };
    let mut next: Vec<u8> = Vec::new();
    let ghost want = halved(level@, w as nat, h as nat);
    let mut y: u32 = 0;
    while y < nh
        invariant
            w >= 1,
            h >= 1,
            level@.len() == w * h,
            w * h <= u32::MAX,
            nw == halve(w as nat),
            nh == halve(h as nat),
            want == halved(level@, w as nat, h as nat),
            y <= nh,
            next@.len() == y * nw,
            forall|i: int| 0 <= i < next@.len() ==> #[trigger] next@[i] == want[i],
        decreases nh - y,
    {
        let mut x: u32 = 0;
        while x < nw
            invariant
                w >= 1,
                h >= 1,
                level@.len() == w * h,
                w * h <= u32::MAX,
                nw == halve(w as nat),
                nh == halve(h as nat),
                want == halved(level@, w as nat, h as nat),
                y < nh,
                x <= nw,
                next@.len() == y * nw + x,
                forall|i: int| 0 <= i < next@.len() ==> #[trigger] next@[i] == want[i],
            decreases nw - x,
        {
            let (x0, y0) = (2 * x, 2 * y);
            let x1 = if x0 + 1 < w { x0 + 1 } else { w - 1 };
            let y1 = if y0 + 1 < h { y0 + 1 } else { h - 1 };
            proof {
                assert(x0 < w && y0 < h);
                assert(y1 * w + x1 < w * h && y0 * w + x1 < w * h) by (nonlinear_arith)
                    requires
                        x1 < w,
                        y1 < h,
                        y0 < h,
                ;
                assert(y1 * w + x0 < w * h && y0 * w + x0 < w * h) by (nonlinear_arith)
                    requires
                        x0 < w,
                        y1 < h,
                        y0 < h,
                ;
            }
            let a = level[(y0 * w + x0) as usize] as u32;
            let b = level[(y0 * w + x1) as usize] as u32;
            let c = level[(y1 * w + x0) as usize] as u32;
            let d = level[(y1 * w + x1) as usize] as u32;
            let v = ((a + b + c + d + 2) / 4) as u8;
            next.push(v);
            proof {
                let i = y * nw + x;
                assert(i % (nw as int) == x && i / (nw as int) == y) by (nonlinear_arith)
                    requires
                        i == y * nw + x,
                        x < nw,
                ;
                assert(i < nw * nh) by (nonlinear_arith)
                    requires
                        i == y * nw + x,
                        x < nw,
                        y < nh,
                ;
                assert(next@[i as int] == want[i as int]);
            }
            x += 1;
        }
        proof {
            assert(y * nw + nw == (y + 1) * nw) by (nonlinear_arith);
        }
        y += 1;
    }
    proof {
        assert(next@.len() == nw * nh) by (nonlinear_arith)
            requires
                next@.len() == y * nw,
                y == nh,
        ;
        assert(next@ == want);
    }
    next
}

/// The glow map `light` (a `w`x`h` grid of highlight bytes) and its box-filtered mip
/// chain, concatenated smallest-last, and how many levels there are.
///
/// Level `L` holds the mean highlight over a `2^L` box, which is the neighbourhood gather
/// the viewer would otherwise do per pixel every frame.
pub fn glow_chain_of(light: Vec<u8>, dims: (u32, u32)) -> (r: (Vec<u8>, u32))
    requires
        chainable(dims.0 as nat, dims.1 as nat),
        light@.len() == dims.0 * dims.1,
        dims.0 * dims.1 <= u32::MAX,
    ensures
        r.0@ == glow_chain(light@, dims.0 as nat, dims.1 as nat),
        r.0@.len() == chain_texels(dims.0 as nat, dims.1 as nat),
        r.1 == chain_levels(dims.0 as nat, dims.1 as nat),
        r.1 == bit_length(longest_side(dims.0 as nat, dims.1 as nat)),
{
    let (mut w, mut h) = dims;
    let ghost (w0, h0) = (w as nat, h as nat);
    let ghost l0 = light@;
    let mut level = light;
    let mut out: Vec<u8> = Vec::new();
    let mut levels: u32 = 1;
    proof {
        lemma_chain_levels(w0, h0);
        lemma_bit_length_bound(longest_side(w0, h0));
    }
    while w > 1 || h > 1
        invariant
            chainable(w as nat, h as nat),
            level@.len() == w * h,
            w * h <= u32::MAX,
            glow_chain(l0, w0, h0) == out@ + glow_chain(level@, w as nat, h as nat),
            chain_levels(w0, h0) == levels - 1 + chain_levels(w as nat, h as nat),
            chain_levels(w0, h0) <= 32,
        decreases side_measure(w as nat, h as nat),
    {
        let next = halve_level(&level, w, h);
        let ghost old_out = out@;
        let mut i: usize = 0;
        while i < level.len()
            invariant
                i <= level@.len(),
                out@ == old_out + level@.take(i as int),
            decreases level@.len() - i,
        {
            out.push(level[i]);
            i += 1;
            assert(out@ == old_out + level@.take(i as int));
        }
        assert(level@.take(level@.len() as int) == level@);
        let nw: u32 = if w / 2 >= 1 { w / 2 } else { 1 };
        let nh: u32 = if h / 2 >= 1 { h / 2 } else { 1 };
        proof {
            assert(nw * nh <= w * h) by (nonlinear_arith)
                requires
                    1 <= nw <= w,
                    1 <= nh <= h,
            ;
            assert(chain_levels(w as nat, h as nat) >= 2) by {
                assert(chain_levels(nw as nat, nh as nat) >= 1);
            }
        }
        level = next;
        w = nw;
        h = nh;
        levels += 1;
    }
    let ghost before = out@;
    let mut i: usize = 0;
    while i < level.len()
        invariant
            i <= level@.len(),
            out@ == before + level@.take(i as int),
        decreases level@.len() - i,
    {
        out.push(level[i]);
        i += 1;
        assert(out@ == before + level@.take(i as int));
    }
    assert(level@.take(level@.len() as int) == level@);
    proof {
        lemma_chain_len(l0, w0, h0);
    }
    (out, levels)
}

} // verus!
