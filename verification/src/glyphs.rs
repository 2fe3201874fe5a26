//! Finding the individual letters and symbols of the artwork: flood-filling the lit pixels
//! into connected blobs, and keeping the blobs the size of a glyph.
//!
//! The image comes as two masks over its pixels, row by row: which pixels are lit (ink), and
//! which are inside the plate. A blob is a set of lit pixels joined through their eight
//! neighbours; it is found from its first lit pixel inside the plate, but flooding follows
//! the ink wherever it goes.

use vstd::prelude::*;
use vstd::set::fold::is_fun_commutative;

verus! {

/// Anything wider or taller than this is ruling, not a glyph.
pub const MAX_SPAN: u32 = 64;

/// ...and anything smaller is a speck of antialiasing or a stray dot.
pub const MIN_SPAN: u32 = 4;

pub const MIN_PIXELS: u32 = 14;

/// What is kept of a blob to judge and place it: its bounding box, the sums of its pixels'
/// coordinates (for the centroid), and how many pixels it has.
#[derive(Debug, Clone, Copy, PartialEq, Eq, Structural)]
pub struct Blob {
    pub lo_x: u32,
    pub hi_x: u32,
    pub lo_y: u32,
    pub hi_y: u32,
    pub sum_x: u64,
    pub sum_y: u64,
    pub count: u32,
}

/// A blob's measurements as plain numbers, in `Blob`'s field order.
pub type Stats = (int, int, int, int, int, int, int);

impl Blob {
    pub open spec fn stats(&self) -> Stats {
        (
            self.lo_x as int,
            self.hi_x as int,
            self.lo_y as int,
            self.hi_y as int,
            self.sum_x as int,
            self.sum_y as int,
            self.count as int,
        )
    }
}

/// Whether `p` is a pixel of a `w`x`h` image, numbered row by row.
pub open spec fn in_image(w: int, h: int, p: int) -> bool {
    0 <= p < w * h
}

/// Whether `p` and `q` are different pixels of a `w`x`h` image that touch, side or corner.
pub open spec fn touching(w: int, h: int, p: int, q: int) -> bool {
    &&& in_image(w, h, p)
    &&& in_image(w, h, q)
    &&& p != q
    &&& -1 <= p % w - q % w <= 1
    &&& -1 <= p / w - q / w <= 1
}

/// Whether `s` is a walk over lit pixels, each step to a touching pixel.
pub open spec fn is_walk(lit: Seq<bool>, w: int, h: int, s: Seq<int>) -> bool {
    &&& s.len() >= 1
    &&& forall|i: int| 0 <= i < s.len() ==> in_image(w, h, #[trigger] s[i]) && lit[s[i]]
    &&& forall|i: int| 0 <= i < s.len() - 1 ==> #[trigger] touching(w, h, s[i], s[i + 1])
}

/// Whether the lit pixels `a` and `b` are joined through lit pixels.
pub open spec fn connected(lit: Seq<bool>, w: int, h: int, a: int, b: int) -> bool {
    exists|s: Seq<int>| #[trigger] is_walk(lit, w, h, s) && s[0] == a && s.last() == b
}

/// The blob of lit pixels joined to `a`.
pub open spec fn blob_of(lit: Seq<bool>, w: int, h: int, a: int) -> Set<int> {
    Set::new(|b: int| connected(lit, w, h, a, b))
}

/// Whether `p` is where a blob is found: a lit pixel inside the plate, with no earlier lit
/// pixel inside the plate (row by row) joined to it.
pub open spec fn is_seed(lit: Seq<bool>, inside: Seq<bool>, w: int, h: int, p: int) -> bool {
    &&& in_image(w, h, p)
    &&& lit[p]
    &&& inside[p]
    &&& forall|q: int| 0 <= q < p && lit[q] && inside[q] ==> !#[trigger] connected(lit, w, h, q, p)
}

/// Taking in one more pixel: the bounding box grows to cover it, its coordinates are added
/// to the sums, and the count goes up by one.
pub open spec fn absorb(w: int) -> spec_fn(Stats, int) -> Stats {
    |acc: Stats, p: int|
        (
            if p % w < acc.0 { p % w } else { acc.0 },
            if p % w > acc.1 { p % w } else { acc.1 },
            if p / w < acc.2 { p / w } else { acc.2 },
            if p / w > acc.3 { p / w } else { acc.3 },
            acc.4 + p % w,
            acc.5 + p / w,
            acc.6 + 1,
        )
}

/// The measurements of the blob found from `seed`: its box, starting from the seed, grown
/// over every pixel of the blob, and its sums and count.
pub open spec fn blob_stats(lit: Seq<bool>, w: int, h: int, seed: int) -> Stats {
    blob_of(lit, w, h, seed).fold((seed % w, seed % w, seed / w, seed / w, 0, 0, 0), absorb(w))
}

/// Whether a blob with these measurements is the size of a glyph: neither side more than
/// `MAX_SPAN` or less than `MIN_SPAN`, and at least `MIN_PIXELS` pixels.
pub open spec fn glyph_sized(st: Stats) -> bool {
    let (sw, sh) = (st.1 - st.0 + 1, st.3 - st.2 + 1);
    !(sw > MAX_SPAN || sh > MAX_SPAN || sw < MIN_SPAN || sh < MIN_SPAN || st.6 < MIN_PIXELS)
}

/// The glyph-sized blobs found among the first `upto` pixels, in the order they are found.
pub open spec fn found_upto(lit: Seq<bool>, inside: Seq<bool>, w: int, h: int, upto: int) -> Seq<
    Stats,
>
    decreases upto,
{
    if upto <= 0 {
        seq![]
    } else {
        let p = upto - 1;
        let before = found_upto(lit, inside, w, h, p);
        if is_seed(lit, inside, w, h, p) && glyph_sized(blob_stats(lit, w, h, p)) {
            before.push(blob_stats(lit, w, h, p))
        } else {
            before
        }
    }
}

/// Every glyph-sized blob of the image.
pub open spec fn glyph_blobs(lit: Seq<bool>, inside: Seq<bool>, w: int, h: int) -> Seq<Stats> {
    found_upto(lit, inside, w, h, w * h)
}

/// Every blob taken for a glyph is the size of one: neither wider nor taller than
/// `MAX_SPAN` (anything bigger is ruling), neither narrower nor shorter than `MIN_SPAN`,
/// and at least `MIN_PIXELS` pixels.
pub proof fn lemma_glyphs_are_glyph_sized(lit: Seq<bool>, inside: Seq<bool>, w: int, h: int, upto: int)
    ensures
        forall|i: int|
            0 <= i < found_upto(lit, inside, w, h, upto).len() ==> {
                let st = #[trigger] found_upto(lit, inside, w, h, upto)[i];
                &&& MIN_SPAN <= st.1 - st.0 + 1 <= MAX_SPAN
                &&& MIN_SPAN <= st.3 - st.2 + 1 <= MAX_SPAN
                &&& st.6 >= MIN_PIXELS
            },
    decreases upto,
{
    if upto > 0 {
        lemma_glyphs_are_glyph_sized(lit, inside, w, h, upto - 1);
        let before = found_upto(lit, inside, w, h, upto - 1);
        let now = found_upto(lit, inside, w, h, upto);
        assert forall|i: int| 0 <= i < now.len() implies {
            let st = #[trigger] now[i];
            &&& MIN_SPAN <= st.1 - st.0 + 1 <= MAX_SPAN
            &&& MIN_SPAN <= st.3 - st.2 + 1 <= MAX_SPAN
            &&& st.6 >= MIN_PIXELS
        } by {
            if i < before.len() {
                assert(now[i] == before[i]);
            }
        }
    }
}

// ---------------------------------------------------------------------------------------
// Walks

proof fn lemma_touching_symmetric(w: int, h: int, p: int, q: int)
    requires
        touching(w, h, p, q),
    ensures
        touching(w, h, q, p),
{
}

proof fn lemma_connected_refl(lit: Seq<bool>, w: int, h: int, a: int)
    requires
        in_image(w, h, a),
        lit[a],
    ensures
        connected(lit, w, h, a, a),
{
    let s = seq![a];
    assert(is_walk(lit, w, h, s));
}

proof fn lemma_connected_step(lit: Seq<bool>, w: int, h: int, a: int, b: int, c: int)
    requires
        connected(lit, w, h, a, b),
        touching(w, h, b, c),
        lit[c],
    ensures
        connected(lit, w, h, a, c),
{
    let s = choose|s: Seq<int>| #[trigger] is_walk(lit, w, h, s) && s[0] == a && s.last() == b;
    let t = s.push(c);
    assert forall|i: int| 0 <= i < t.len() - 1 implies #[trigger] touching(w, h, t[i], t[i + 1]) by {
        if i < s.len() - 1 {
            assert(touching(w, h, s[i], s[i + 1]));
        }
    }
    assert forall|i: int| 0 <= i < t.len() implies in_image(w, h, #[trigger] t[i]) && lit[t[i]] by {
        if i < s.len() {
            assert(t[i] == s[i]);
        }
    }
    assert(is_walk(lit, w, h, t));
}

proof fn lemma_connected_symmetric(lit: Seq<bool>, w: int, h: int, a: int, b: int)
    requires
        connected(lit, w, h, a, b),
    ensures
        connected(lit, w, h, b, a),
{
    let s = choose|s: Seq<int>| #[trigger] is_walk(lit, w, h, s) && s[0] == a && s.last() == b;
    let t = s.reverse();
    assert forall|i: int| 0 <= i < t.len() - 1 implies #[trigger] touching(w, h, t[i], t[i + 1]) by {
        let j = s.len() - 2 - i;
        assert(touching(w, h, s[j], s[j + 1]));
        lemma_touching_symmetric(w, h, s[j], s[j + 1]);
    }
    assert forall|i: int| 0 <= i < t.len() implies in_image(w, h, #[trigger] t[i]) && lit[t[i]] by {
        assert(t[i] == s[s.len() - 1 - i]);
    }
    assert(is_walk(lit, w, h, t));
}

proof fn lemma_connected_trans(lit: Seq<bool>, w: int, h: int, a: int, b: int, c: int)
    requires
        connected(lit, w, h, a, b),
        connected(lit, w, h, b, c),
    ensures
        connected(lit, w, h, a, c),
{
    let s = choose|s: Seq<int>| #[trigger] is_walk(lit, w, h, s) && s[0] == b && s.last() == c;
    lemma_connected_along(lit, w, h, a, s, s.len() as int);
}

/// Walking `s` from a pixel joined to `a`, every pixel on the way is joined to `a`.
proof fn lemma_connected_along(lit: Seq<bool>, w: int, h: int, a: int, s: Seq<int>, k: int)
    requires
        is_walk(lit, w, h, s),
        connected(lit, w, h, a, s[0]),
        1 <= k <= s.len(),
    ensures
        connected(lit, w, h, a, s[k - 1]),
    decreases k,
{
    if k > 1 {
        lemma_connected_along(lit, w, h, a, s, k - 1);
        let i = k - 2;
        assert(touching(w, h, s[i], s[i + 1]));
        assert(in_image(w, h, s[i + 1]) && lit[s[i + 1]]);
        lemma_connected_step(lit, w, h, a, s[i], s[i + 1]);
    }
}

/// A set of pixels that holds `a` and every lit pixel touching any of its members holds
/// every pixel along a walk from `a`.
proof fn lemma_closed_holds_walk(lit: Seq<bool>, w: int, h: int, set: Seq<bool>, s: Seq<int>, k: int)
    requires
        set[s[0]],
        forall|p: int, q: int|
            in_image(w, h, p) && set[p] && #[trigger] touching(w, h, p, q) && lit[q] ==> set[q],
        is_walk(lit, w, h, s),
        1 <= k <= s.len(),
    ensures
        set[s[k - 1]],
    decreases k,
{
    if k > 1 {
        lemma_closed_holds_walk(lit, w, h, set, s, k - 1);
        let i = k - 2;
        assert(touching(w, h, s[i], s[i + 1]));
        assert(in_image(w, h, s[i + 1]) && lit[s[i + 1]]);
    }
}

/// A set of pixels that holds `a` and every lit pixel touching any of its members holds
/// every pixel joined to `a`.
proof fn lemma_closed_holds_blob(lit: Seq<bool>, w: int, h: int, set: Seq<bool>, a: int, b: int)
    requires
        set[a],
        forall|p: int, q: int|
            in_image(w, h, p) && set[p] && #[trigger] touching(w, h, p, q) && lit[q] ==> set[q],
        connected(lit, w, h, a, b),
    ensures
        set[b],
{
    let s = choose|s: Seq<int>| #[trigger] is_walk(lit, w, h, s) && s[0] == a && s.last() == b;
    lemma_closed_holds_walk(lit, w, h, set, s, s.len() as int);
}

// ---------------------------------------------------------------------------------------
// Measurements

proof fn lemma_absorb_commutes(w: int)
    ensures
        is_fun_commutative(absorb(w)),
{
    let f = absorb(w);
    assert forall|a1: int, a2: int, b: Stats| #[trigger] f(f(b, a2), a1) == f(f(b, a1), a2) by {}
}

/// How many entries of `v` are true.
pub open spec fn count_true(v: Seq<bool>) -> nat
    decreases v.len(),
{
    if v.len() == 0 {
        0
    } else {
        count_true(v.drop_last()) + if v.last() { 1nat } else { 0nat }
    }
}

proof fn lemma_count_true_bound(v: Seq<bool>)
    ensures
        count_true(v) <= v.len(),
    decreases v.len(),
{
    if v.len() > 0 {
        lemma_count_true_bound(v.drop_last());
    }
}

proof fn lemma_count_true_set(v: Seq<bool>, i: int)
    requires
        0 <= i < v.len(),
        !v[i],
    ensures
        count_true(v.update(i, true)) == count_true(v) + 1,
    decreases v.len(),
{
    let u = v.update(i, true);
    if i == v.len() - 1 {
        assert(u.drop_last() == v.drop_last());
    } else {
        lemma_count_true_set(v.drop_last(), i);
        assert(u.drop_last() == v.drop_last().update(i, true));
    }
}

// ---------------------------------------------------------------------------------------
// Flooding

/// Whether `seen` marks only lit pixels, and with every marked pixel also every lit pixel
/// touching it.
pub open spec fn closed_marks(lit: Seq<bool>, w: int, h: int, seen: Seq<bool>) -> bool {
    &&& seen.len() == w * h
    &&& forall|p: int| 0 <= p < w * h && #[trigger] seen[p] ==> lit[p]
    &&& forall|p: int, q: int|
        in_image(w, h, p) && seen[p] && #[trigger] touching(w, h, p, q) && lit[q] ==> seen[q]
}

/// Mark and stack the pixel at column `x`, row `y` (each possibly one off the image) if it
/// is on the image, lit and not yet marked.
fn visit(
    lit: &[bool],
    w: usize,
    h: usize,
    x: usize,
    y: usize,
    dx: i8,
    dy: i8,
    seen: &mut Vec<bool>,
    stack: &mut Vec<usize>,
)
    requires
        lit@.len() == w * h,
        old(seen)@.len() == w * h,
        w * h <= u32::MAX,
        x < w,
        y < h,
        -1 <= dx <= 1,
        -1 <= dy <= 1,
    ensures
        final(seen)@.len() == w * h,
        ({
            let (nx, ny) = (x + dx, y + dy);
            let q = ny * w + nx;
            if 0 <= nx < w && 0 <= ny < h && lit@[q] && !old(seen)@[q] {
                &&& final(seen)@ == old(seen)@.update(q, true)
                &&& final(stack)@ == old(stack)@.push(q as usize)
            } else {
                &&& final(seen)@ == old(seen)@
                &&& final(stack)@ == old(stack)@
            }
        }),
{
    if (dx < 0 && x == 0) || (dx > 0 && x + 1 >= w) || (dy < 0 && y == 0) || (dy > 0 && y + 1
        >= h) {
        return;
    }
    let nx: usize = if dx < 0 { x - 1 } else if dx > 0 { x + 1 } else { x };
    let ny: usize = if dy < 0 { y - 1 } else if dy > 0 { y + 1 } else { y };
    proof {
        assert(ny * w + nx < w * h) by (nonlinear_arith)
            requires
                nx < w,
                ny < h,
        ;
    }
    let q = ny * w + nx;
    if lit[q] && !seen[q] {
        seen.set(q, true);
        stack.push(q);
    }
}

/// The pixel numbered `p` is at column `p % w`, row `p / w`, and back.
proof fn lemma_pixel_coords(w: int, h: int, p: int)
    requires
        in_image(w, h, p),
        w > 0,
    ensures
        0 <= p % w < w,
        0 <= p / w < h,
        (p / w) * w + p % w == p,
{
    vstd::arithmetic::div_mod::lemma_fundamental_div_mod(p, w);
    assert(p / w < h) by (nonlinear_arith)
        requires
            0 <= p < w * h,
            w > 0,
            p == w * (p / w) + p % w,
            0 <= p % w < w,
    ;
    assert(0 <= p / w) by (nonlinear_arith)
        requires
            0 <= p,
            w > 0,
    ;
}

/// The pixel at column `x`, row `y` of a `w`-wide image is numbered `y * w + x`.
proof fn lemma_coords_pixel(w: int, h: int, x: int, y: int)
    requires
        0 <= x < w,
        0 <= y < h,
    ensures
        in_image(w, h, y * w + x),
        (y * w + x) % w == x,
        (y * w + x) / w == y,
{
    assert(0 <= y * w + x < w * h) by (nonlinear_arith)
        requires
            0 <= x < w,
            0 <= y < h,
    ;
    vstd::arithmetic::div_mod::lemma_fundamental_div_mod_converse(y * w + x, w, y, x);
}

/// Whether the pixel at column `nx`, row `ny` (which may lie off the image) is marked if
/// it is on the image and lit.
pub open spec fn marked_if_lit(lit: Seq<bool>, seen: Seq<bool>, w: int, h: int, nx: int, ny: int) -> bool {
    0 <= nx < w && 0 <= ny < h && lit[ny * w + nx] ==> seen[ny * w + nx]
}

/// The entries of `after` past the first `before.len()`.
pub open spec fn pushed_onto(before: Seq<usize>, after: Seq<usize>) -> Seq<usize> {
    after.skip(before.len() as int)
}

/// The eight neighbours of a pixel, as steps of column and row.
spec fn steps() -> Seq<(i8, i8)> {
    seq![(-1i8, 0i8), (1i8, 0i8), (0i8, -1i8), (0i8, 1i8), (-1i8, -1i8), (1i8, -1i8), (-1i8, 1i8), (1i8, 1i8)]
}

/// Mark and stack every unmarked lit pixel touching pixel `p`.
fn visit_around(
    lit: &[bool],
    w: usize,
    h: usize,
    p: usize,
    seen: &mut Vec<bool>,
    stack: &mut Vec<usize>,
)
    requires
        lit@.len() == w * h,
        old(seen)@.len() == w * h,
        w * h <= u32::MAX,
        p < w * h,
    ensures
        final(seen)@.len() == w * h,
        forall|q: int| touching(w as int, h as int, p as int, q) && lit@[q] ==> #[trigger] final(seen)@[q],
        final(stack)@.len() >= old(stack)@.len(),
        final(stack)@ == old(stack)@ + pushed_onto(old(stack)@, final(stack)@),
        pushed_onto(old(stack)@, final(stack)@).no_duplicates(),
        forall|i: int|
            0 <= i < pushed_onto(old(stack)@, final(stack)@).len() ==> {
                let q = #[trigger] pushed_onto(old(stack)@, final(stack)@)[i] as int;
                &&& touching(w as int, h as int, p as int, q)
                &&& lit@[q]
                &&& !old(seen)@[q]
            },
        forall|q: int|
            0 <= q < w * h ==> (#[trigger] final(seen)@[q] <==> old(seen)@[q]
                || pushed_onto(old(stack)@, final(stack)@).contains(q as usize)),
        count_true(final(seen)@) == count_true(old(seen)@) + pushed_onto(old(stack)@, final(stack)@).len(),
{
    proof {
        lemma_pixel_coords(w as int, h as int, p as int);
    }
    let (x, y) = (p % w, p / w);
    let ghost s0 = seen@;
    let ghost st0 = stack@;
    let deltas: [(i8, i8); 8] = [(-1, 0), (1, 0), (0, -1), (0, 1), (-1, -1), (1, -1), (-1, 1), (1, 1)];
    assert(deltas@ == steps());
    let mut d: usize = 0;
    while d < 8
        invariant
            lit@.len() == w * h,
            seen@.len() == w * h,
            w * h <= u32::MAX,
            x < w,
            y < h,
            y * w + x == p,
            d <= 8,
            deltas@ == steps(),
            forall|e: int|
                0 <= e < d ==> marked_if_lit(lit@, seen@, w as int, h as int, x + (#[trigger] steps()[e]).0, y + steps()[e].1),
            stack@.len() >= st0.len(),
            stack@ == st0 + pushed_onto(st0, stack@),
            pushed_onto(st0, stack@).no_duplicates(),
            forall|i: int|
                0 <= i < pushed_onto(st0, stack@).len() ==> {
                    let q = #[trigger] pushed_onto(st0, stack@)[i] as int;
                    &&& touching(w as int, h as int, p as int, q)
                    &&& lit@[q]
                    &&& !s0[q]
                },
            forall|q: int|
                0 <= q < w * h ==> (#[trigger] seen@[q] <==> s0[q] || pushed_onto(st0, stack@).contains(q as usize)),
            count_true(seen@) == count_true(s0) + pushed_onto(st0, stack@).len(),
        decreases 8 - d,
    {
        let (dx, dy) = deltas[d];
        let ghost seen1 = seen@;
        let ghost stack1 = stack@;
        let ghost new1 = pushed_onto(st0, stack1);
        visit(lit, w, h, x, y, dx, dy, seen, stack);
        proof {
            let (nx, ny) = (x + dx, y + dy);
            let q = ny * w + nx;
            let new2 = pushed_onto(st0, stack@);
            if 0 <= nx < w && 0 <= ny < h {
                lemma_coords_pixel(w as int, h as int, nx, ny);
            }
            if 0 <= nx < w && 0 <= ny < h && lit@[q] && !seen1[q] {
                lemma_count_true_set(seen1, q);
                assert(!(dx == 0 && dy == 0)) by {
                    assert(steps()[d as int] == (dx, dy));
                }
                lemma_coords_pixel(w as int, h as int, x as int, y as int);
                assert(touching(w as int, h as int, p as int, q));
                assert(new2 == new1.push(q as usize));
                assert(stack@ == st0 + new2);
                assert(!new1.contains(q as usize));
                assert forall|q2: int| 0 <= q2 < w * h implies (#[trigger] seen@[q2] <==> s0[q2]
                    || new2.contains(q2 as usize)) by {
                    vstd::seq_lib::lemma_seq_contains_after_push(new1, q as usize, q2 as usize);
                }
                assert forall|i: int| 0 <= i < new2.len() implies ({
                    let q3 = #[trigger] new2[i] as int;
                    &&& touching(w as int, h as int, p as int, q3)
                    &&& lit@[q3]
                    &&& !s0[q3]
                }) by {
                    if i < new1.len() {
                        assert(new2[i] == new1[i]);
                    } else {
                        assert(!s0[q]);
                    }
                }
            } else {
                assert(new2 == new1);
            }
            assert forall|e: int| 0 <= e < d + 1 implies marked_if_lit(lit@, seen@, w as int, h as int, x + (#[trigger] steps()[e]).0, y + steps()[e].1) by {
                let (nx2, ny2) = (x + steps()[e].0, y + steps()[e].1);
                if 0 <= nx2 < w && 0 <= ny2 < h {
                    lemma_coords_pixel(w as int, h as int, nx2, ny2);
                }
                if e < d {
                    assert(marked_if_lit(lit@, seen1, w as int, h as int, nx2, ny2));
                }
            }
        }
        d += 1;
    }
    proof {
        assert forall|q: int| touching(w as int, h as int, p as int, q) && lit@[q] implies #[trigger] seen@[q] by {
            lemma_pixel_coords(w as int, h as int, q);
            lemma_coords_pixel(w as int, h as int, x as int, y as int);
            let (qx, qy) = (q % (w as int), q / (w as int));
            let (dx, dy) = (qx - x, qy - y);
            let e: int = if dx == -1 && dy == 0 {
                0
            } else if dx == 1 && dy == 0 {
                1
            } else if dx == 0 && dy == -1 {
                2
            } else if dx == 0 && dy == 1 {
                3
            } else if dx == -1 && dy == -1 {
                4
            } else if dx == 1 && dy == -1 {
                5
            } else if dx == -1 && dy == 1 {
                6
            } else {
                7
            };
            assert(!(dx == 0 && dy == 0));
            assert(steps()[e].0 == dx && steps()[e].1 == dy);
            assert(marked_if_lit(lit@, seen@, w as int, h as int, x + steps()[e].0, y + steps()[e].1));
        }
    }
}

/// The measurements before any pixel is taken in: a box around the seed alone, and nothing
/// summed or counted.
pub open spec fn start_stats(w: int, seed: int) -> Stats {
    (seed % w, seed % w, seed / w, seed / w, 0, 0, 0)
}

/// Flood the blob of the unmarked lit pixel `seed`, marking every pixel of it, and measure
/// it. The flag says whether the box grew past four times the widest glyph on the way: the
/// ruling, which is measured no further than it needs to be.
fn flood(lit: &[bool], w: usize, h: usize, seed: usize, seen: &mut Vec<bool>) -> (r: (Blob, bool))
    requires
        lit@.len() == w * h,
        w * h <= u32::MAX,
        seed < w * h,
        lit@[seed as int],
        !old(seen)@[seed as int],
        closed_marks(lit@, w as int, h as int, old(seen)@),
    ensures
        closed_marks(lit@, w as int, h as int, final(seen)@),
        forall|q: int|
            0 <= q < w * h ==> (#[trigger] final(seen)@[q] <==> old(seen)@[q] || connected(
                lit@,
                w as int,
                h as int,
                seed as int,
                q,
            )),
        r.0.stats() == blob_stats(lit@, w as int, h as int, seed as int),
        r.1 ==> !glyph_sized(r.0.stats()),
        r.0.lo_x <= r.0.hi_x < w,
        r.0.lo_y <= r.0.hi_y < h,
{
    let ghost ww = w as int;
    let ghost hh = h as int;
    let ghost s0 = seen@;
    let ghost z = start_stats(ww, seed as int);
    proof {
        lemma_pixel_coords(ww, hh, seed as int);
        assert(w <= w * h && h <= w * h) by (nonlinear_arith)
            requires
                seed < w * h,
        ;
        lemma_absorb_commutes(ww);
        lemma_count_true_set(s0, seed as int);
        lemma_count_true_bound(s0.update(seed as int, true));
    }
    let x0 = (seed % w) as u32;
    let y0 = (seed / w) as u32;
    let (mut lo_x, mut hi_x, mut lo_y, mut hi_y) = (x0, x0, y0, y0);
    let (mut sx, mut sy, mut n) = (0u64, 0u64, 0u32);
    let mut oversized = false;
    let mut stack: Vec<usize> = Vec::new();
    seen.set(seed, true);
    stack.push(seed);
    let ghost mut popped: Set<int> = Set::empty();
    proof {
        lemma_connected_refl(lit@, ww, hh, seed as int);
        assert forall|q: int| 0 <= q < w * h implies (#[trigger] seen@[q] <==> s0[q]
            || popped.contains(q) || stack@.contains(q as usize)) by {
            if q == seed {
                assert(stack@[0] == seed);
            }
        }
        assert(popped.fold(z, absorb(ww)) == z) by {
            vstd::set::fold::lemma_fold_empty(z, absorb(ww));
        }
    }
    while stack.len() > 0
        invariant
            lit@.len() == w * h,
            w * h <= u32::MAX,
            w <= w * h,
            h <= w * h,
            seed < w * h,
            ww == w,
            hh == h,
            is_fun_commutative(absorb(ww)),
            closed_marks(lit@, ww, hh, s0),
            !s0[seed as int],
            seen@.len() == w * h,
            seen@[seed as int],
            forall|q: int| 0 <= q < w * h && #[trigger] seen@[q] ==> lit@[q],
            stack@.no_duplicates(),
            forall|i: int|
                0 <= i < stack@.len() ==> {
                    let q = #[trigger] stack@[i] as int;
                    &&& in_image(ww, hh, q)
                    &&& !s0[q]
                    &&& !popped.contains(q)
                    &&& connected(lit@, ww, hh, seed as int, q)
                },
            popped.finite(),
            forall|q: int|
                #[trigger] popped.contains(q) ==> in_image(ww, hh, q) && !s0[q] && connected(
                    lit@,
                    ww,
                    hh,
                    seed as int,
                    q,
                ),
            forall|q: int|
                0 <= q < w * h ==> (#[trigger] seen@[q] <==> s0[q] || popped.contains(q)
                    || stack@.contains(q as usize)),
            forall|p: int, q: int|
                popped.contains(p) && #[trigger] touching(ww, hh, p, q) && lit@[q] ==> seen@[q],
            count_true(seen@) == count_true(s0) + popped.len() + stack@.len(),
            count_true(seen@) <= w * h,
            (lo_x as int, hi_x as int, lo_y as int, hi_y as int, sx as int, sy as int, n as int)
                == popped.fold(z, absorb(ww)),
            n == popped.len(),
            lo_x <= hi_x < w,
            lo_y <= hi_y < h,
            sx <= n * w,
            sy <= n * h,
            oversized ==> hi_x - lo_x > MAX_SPAN * 4 || hi_y - lo_y > MAX_SPAN * 4,
        decreases 2 * (w * h - count_true(seen@)) + stack@.len(),
    {
        let ghost seen1 = seen@;
        let ghost stack1 = stack@;
        let p = stack.pop().unwrap();
        let ghost rest = stack@;
        proof {
            assert(stack1[stack1.len() - 1] == p);
            assert(!popped.contains(p as int));
            lemma_pixel_coords(ww, hh, p as int);
            assert(n + 1 <= w * h);
            assert((n + 1) * w <= u64::MAX && (n + 1) * h <= u64::MAX) by (nonlinear_arith)
                requires
                    n + 1 <= w * h,
                    w * h <= u32::MAX,
                    w <= w * h,
                    h <= w * h,
            ;
            assert(sx + p % w <= (n + 1) * w && sy + p / w <= (n + 1) * h) by (nonlinear_arith)
                requires
                    sx <= n * w,
                    sy <= n * h,
                    p % w < w,
                    p / w < h,
            ;
        }
        let x = (p % w) as u32;
        let y = (p / w) as u32;
        lo_x = if x < lo_x { x } else { lo_x };
        hi_x = if x > hi_x { x } else { hi_x };
        lo_y = if y < lo_y { y } else { lo_y };
        hi_y = if y > hi_y { y } else { hi_y };
        sx = sx + x as u64;
        sy = sy + y as u64;
        n = n + 1;
        if hi_x - lo_x > MAX_SPAN * 4 || hi_y - lo_y > MAX_SPAN * 4 {
            oversized = true;
        }
        let ghost popped1 = popped;
        proof {
            vstd::set::fold::lemma_fold_insert(popped1, z, absorb(ww), p as int);
            popped = popped.insert(p as int);
        }
        visit_around(lit, w, h, p, seen, &mut stack);
        proof {
            let new = pushed_onto(rest, stack@);
            assert(rest.no_duplicates());
            assert forall|i: int, j: int| 0 <= i < rest.len() && 0 <= j < new.len() implies rest[i] != new[j] by {
                assert(stack1[i] == rest[i]);
                assert(stack1.contains(rest[i]));
                assert(seen1[rest[i] as int]);
            }
            vstd::seq_lib::lemma_no_dup_in_concat(rest, new);
            assert forall|i: int| 0 <= i < stack@.len() implies {
                let q = #[trigger] stack@[i] as int;
                &&& in_image(ww, hh, q)
                &&& !s0[q]
                &&& !popped.contains(q)
                &&& connected(lit@, ww, hh, seed as int, q)
            } by {
                let q = stack@[i] as int;
                if i < rest.len() {
                    assert(stack1[i] == rest[i]);
                    assert(q != p) by {
                        assert(stack1[stack1.len() - 1] == p);
                    }
                } else {
                    assert(new[i - rest.len()] == stack@[i]);
                    assert(touching(ww, hh, p as int, q));
                    lemma_connected_step(lit@, ww, hh, seed as int, p as int, q);
                    assert(!seen1[q]);
                    if popped.contains(q) {
                        if q != p {
                            assert(popped1.contains(q));
                            assert(seen1[q]);
                        } else {
                            assert(stack1.contains(p));
                        }
                    }
                }
            }
            assert forall|q: int| 0 <= q < w * h implies (#[trigger] seen@[q] <==> s0[q]
                || popped.contains(q) || stack@.contains(q as usize)) by {
                vstd::seq_lib::lemma_seq_concat_contains_all_elements(rest, new, q as usize);
                if stack1.contains(q as usize) {
                    let i = choose|i: int| 0 <= i < stack1.len() && stack1[i] == q as usize;
                    if i < stack1.len() - 1 {
                        assert(rest[i] == q as usize);
                    }
                }
                if rest.contains(q as usize) {
                    let i = choose|i: int| 0 <= i < rest.len() && rest[i] == q as usize;
                    assert(stack1[i] == q as usize);
                }
                if q == p {
                    assert(stack1[stack1.len() - 1] == p);
                }
            }
            assert forall|p2: int, q: int|
                popped.contains(p2) && #[trigger] touching(ww, hh, p2, q) && lit@[q] implies seen@[q] by {
                if p2 != p {
                    assert(popped1.contains(p2));
                    assert(seen1[q]);
                }
            }
            assert forall|q: int| 0 <= q < w * h && #[trigger] seen@[q] implies lit@[q] by {
                if !seen1[q] {
                    let j = choose|j: int| 0 <= j < new.len() && new[j] == q as usize;
                    assert(lit@[new[j] as int]);
                }
            }
            lemma_count_true_bound(seen@);
        }
    }
    proof {
        assert forall|q: int| 0 <= q < w * h && #[trigger] seen@[q] implies s0[q] || popped.contains(q) by {}
        assert forall|p2: int, q: int|
            in_image(ww, hh, p2) && seen@[p2] && #[trigger] touching(ww, hh, p2, q) && lit@[q] implies seen@[q] by {
            if s0[p2] {
                assert(s0[q]);
            }
        }
        assert(popped =~= blob_of(lit@, ww, hh, seed as int)) by {
            assert forall|b: int| #[trigger] blob_of(lit@, ww, hh, seed as int).contains(b) implies popped.contains(b) by {
                lemma_closed_holds_blob(lit@, ww, hh, seen@, seed as int, b);
                let s = choose|s: Seq<int>| #[trigger] is_walk(lit@, ww, hh, s) && s[0] == seed as int && s.last() == b;
                assert(in_image(ww, hh, s[s.len() - 1]));
                if s0[b] {
                    lemma_connected_symmetric(lit@, ww, hh, seed as int, b);
                    lemma_closed_holds_blob(lit@, ww, hh, s0, b, seed as int);
                }
            }
        }
    }
    (Blob { lo_x, hi_x, lo_y, hi_y, sum_x: sx, sum_y: sy, count: n }, oversized)
}

/// Walking back from a lit pixel inside the plate joined to `q`, an earlier seed joined to
/// `q` is met.
proof fn lemma_seed_behind(lit: Seq<bool>, inside: Seq<bool>, w: int, h: int, q: int, c: int)
    requires
        0 <= c,
        in_image(w, h, c),
        lit[c],
        inside[c],
        connected(lit, w, h, c, q),
    ensures
        exists|s: int| 0 <= s <= c && is_seed(lit, inside, w, h, s) && #[trigger] connected(lit, w, h, s, q),
    decreases c,
{
    if is_seed(lit, inside, w, h, c) {
        assert(connected(lit, w, h, c, q));
    } else {
        let e = choose|e: int| 0 <= e < c && lit[e] && inside[e] && #[trigger] connected(lit, w, h, e, c);
        lemma_connected_trans(lit, w, h, e, c, q);
        lemma_seed_behind(lit, inside, w, h, q, e);
    }
}

/// Every lit pixel inside the plate is in the blob of exactly one seed, found at or before
/// it: no blob is missed, and none is found twice.
pub proof fn lemma_each_blob_found_once(lit: Seq<bool>, inside: Seq<bool>, w: int, h: int, q: int)
    requires
        in_image(w, h, q),
        lit[q],
        inside[q],
    ensures
        exists|s: int| 0 <= s <= q && is_seed(lit, inside, w, h, s) && #[trigger] connected(lit, w, h, s, q),
        forall|s1: int, s2: int|
            is_seed(lit, inside, w, h, s1) && is_seed(lit, inside, w, h, s2) && #[trigger] connected(lit, w, h, s1, q)
                && #[trigger] connected(lit, w, h, s2, q) ==> s1 == s2,
{
    lemma_connected_refl(lit, w, h, q);
    lemma_seed_behind(lit, inside, w, h, q, q);
    assert forall|s1: int, s2: int|
        is_seed(lit, inside, w, h, s1) && is_seed(lit, inside, w, h, s2) && #[trigger] connected(lit, w, h, s1, q)
            && #[trigger] connected(lit, w, h, s2, q) implies s1 == s2 by {
        if s1 < s2 {
            lemma_connected_symmetric(lit, w, h, s2, q);
            lemma_connected_trans(lit, w, h, s1, q, s2);
        } else if s2 < s1 {
            lemma_connected_symmetric(lit, w, h, s1, q);
            lemma_connected_trans(lit, w, h, s2, q, s1);
        }
    }
}

/// Whether the pixel of `rgb` with these channels is ink: its luma, weighted as in
/// Rec. 601 (in thousandths), is over sixty.
pub open spec fn is_ink(r: u8, g: u8, b: u8) -> bool {
    r * 299 + g * 587 + b * 114 > 60_000
}

/// Which pixels of an image, given as its RGB bytes row by row, are ink (a trailing
/// partial pixel is no pixel).
pub fn ink_mask(rgb: &[u8]) -> (lit: Vec<bool>)
    ensures
        lit@.len() == rgb@.len() / 3,
        forall|i: int|
            0 <= i < lit@.len() ==> #[trigger] lit@[i] == is_ink(
                rgb@[3 * i],
                rgb@[3 * i + 1],
                rgb@[3 * i + 2],
            ),
{
    let len = rgb.len();
    let n = len / 3;
    let mut lit: Vec<bool> = Vec::with_capacity(n);
    let mut i: usize = 0;
    while i < n
        invariant
            n == rgb@.len() / 3,
            len == rgb@.len(),
            i <= n,
            lit@.len() == i,
            forall|j: int|
                0 <= j < i ==> #[trigger] lit@[j] == is_ink(
                    rgb@[3 * j],
                    rgb@[3 * j + 1],
                    rgb@[3 * j + 2],
                ),
        decreases n - i,
    {
        assert(3 * i + 2 < rgb@.len());
        let (r, g, b) = (rgb[3 * i], rgb[3 * i + 1], rgb[3 * i + 2]);
        lit.push(r as u32 * 299 + g as u32 * 587 + b as u32 * 114 > 60_000);
        i += 1;
    }
    lit
}

/// Whether some lit pixel inside the plate among the first `upto` is joined to `q`: whether
/// the search has flooded `q` by then.
pub open spec fn reached(lit: Seq<bool>, inside: Seq<bool>, w: int, h: int, upto: int, q: int) -> bool {
    exists|s: int| 0 <= s < upto && lit[s] && inside[s] && #[trigger] connected(lit, w, h, s, q)
}

/// Every glyph-sized blob of a `w`x`h` image whose ink is `lit`, found from its first pixel
/// inside the plate `inside`, in the order they are found (row by row).
pub fn find_blobs(lit: &[bool], inside: &[bool], w: u32, h: u32) -> (out: Vec<Blob>)
    requires
        lit@.len() == w * h,
        inside@.len() == w * h,
        w * h <= u32::MAX,
    ensures
        out@.map_values(|b: Blob| b.stats()) == glyph_blobs(lit@, inside@, w as int, h as int),
        forall|i: int|
            0 <= i < out@.len() ==> {
                let b = #[trigger] out@[i];
                &&& MIN_SPAN <= b.hi_x - b.lo_x + 1 <= MAX_SPAN
                &&& MIN_SPAN <= b.hi_y - b.lo_y + 1 <= MAX_SPAN
                &&& b.count >= MIN_PIXELS
            },
{
    let wu = w as usize;
    let hu = h as usize;
    let n: usize = wu * hu;
    let ghost ww = w as int;
    let ghost hh = h as int;
    let mut seen: Vec<bool> = vec![false; n];
    let mut out: Vec<Blob> = Vec::new();
    let mut p: usize = 0;
    proof {
        assert forall|q: int| 0 <= q < n implies !(#[trigger] seen@[q]) by {
            assert(cloned(false, seen@[q]));
        }
    }
    while p < n
        invariant
            n == w * h,
            wu == w,
            hu == h,
            ww == w,
            hh == h,
            w * h <= u32::MAX,
            lit@.len() == n,
            inside@.len() == n,
            p <= n,
            closed_marks(lit@, ww, hh, seen@),
            forall|q: int| 0 <= q < n ==> (#[trigger] seen@[q] <==> reached(lit@, inside@, ww, hh, p as int, q)),
            out@.map_values(|b: Blob| b.stats()) == found_upto(lit@, inside@, ww, hh, p as int),
        decreases n - p,
    {
        let ghost seen1 = seen@;
        let ghost out1 = out@;
        if !seen[p] && inside[p] && lit[p] {
            proof {
                assert forall|q: int| 0 <= q < p && lit@[q] && inside@[q] implies !#[trigger] connected(lit@, ww, hh, q, p as int) by {
                    if connected(lit@, ww, hh, q, p as int) {
                        assert(reached(lit@, inside@, ww, hh, p as int, p as int));
                    }
                }
                assert(is_seed(lit@, inside@, ww, hh, p as int));
            }
            let (b, big) = flood(lit, wu, hu, p, &mut seen);
            let (sw, sh) = (b.hi_x - b.lo_x + 1, b.hi_y - b.lo_y + 1);
            if !(big || sw > MAX_SPAN || sh > MAX_SPAN || sw < MIN_SPAN || sh < MIN_SPAN || b.count < MIN_PIXELS) {
                out.push(b);
                proof {
                    assert(out@.map_values(|b: Blob| b.stats()) == out1.map_values(|b: Blob| b.stats()).push(b.stats()));
                }
            }
            proof {
                assert forall|q: int| 0 <= q < n implies (#[trigger] seen@[q] <==> reached(lit@, inside@, ww, hh, p + 1, q)) by {
                    if connected(lit@, ww, hh, p as int, q) {
                        assert(reached(lit@, inside@, ww, hh, p + 1, q));
                    }
                    if reached(lit@, inside@, ww, hh, p + 1, q) {
                        let s = choose|s: int| 0 <= s < p + 1 && lit@[s] && inside@[s] && #[trigger] connected(lit@, ww, hh, s, q);
                        if s < p {
                            assert(reached(lit@, inside@, ww, hh, p as int, q));
                        }
                    }
                }
            }
        } else {
            proof {
                if seen@[p as int] {
                    assert(reached(lit@, inside@, ww, hh, p as int, p as int));
                    let s0 = choose|s: int| 0 <= s < p && lit@[s] && inside@[s] && #[trigger] connected(lit@, ww, hh, s, p as int);
                    assert(!is_seed(lit@, inside@, ww, hh, p as int));
                    assert forall|q: int| 0 <= q < n implies (#[trigger] seen@[q] <==> reached(lit@, inside@, ww, hh, p + 1, q)) by {
                        if reached(lit@, inside@, ww, hh, p + 1, q) {
                            let s = choose|s: int| 0 <= s < p + 1 && lit@[s] && inside@[s] && #[trigger] connected(lit@, ww, hh, s, q);
                            if s == p {
                                lemma_connected_trans(lit@, ww, hh, s0, p as int, q);
                                assert(reached(lit@, inside@, ww, hh, p as int, q));
                            } else {
                                assert(reached(lit@, inside@, ww, hh, p as int, q));
                            }
                        }
                    }
                } else {
                    assert forall|q: int| 0 <= q < n implies (#[trigger] seen@[q] <==> reached(lit@, inside@, ww, hh, p + 1, q)) by {
                        if reached(lit@, inside@, ww, hh, p + 1, q) {
                            let s = choose|s: int| 0 <= s < p + 1 && lit@[s] && inside@[s] && #[trigger] connected(lit@, ww, hh, s, q);
                            assert(s != p);
                            assert(reached(lit@, inside@, ww, hh, p as int, q));
                        }
                    }
                }
            }
        }
        p += 1;
    }
    proof {
        lemma_glyphs_are_glyph_sized(lit@, inside@, ww, hh, ww * hh);
        assert forall|i: int| 0 <= i < out@.len() implies {
            let b = #[trigger] out@[i];
            &&& MIN_SPAN <= b.hi_x - b.lo_x + 1 <= MAX_SPAN
            &&& MIN_SPAN <= b.hi_y - b.lo_y + 1 <= MAX_SPAN
            &&& b.count >= MIN_PIXELS
        } by {
            assert(out@.map_values(|b: Blob| b.stats())[i] == out@[i].stats());
        }
    }
    out
}

} // verus!
