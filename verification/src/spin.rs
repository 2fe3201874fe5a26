//! Where each layer stands on a given frame of the loop.
//!
//! A layer turns a whole number of revolutions per loop, so its angle on frame `i` of `n`
//! is `turns * i / n` revolutions. Reducing `turns * i` modulo `n` in integers makes frame
//! `n` land exactly where frame 0 does: the loop is seamless by construction.

use vstd::prelude::*;

verus! {

/// The step, out of `frames`, that a layer turning `turns` times per loop has reached on
/// frame `frame`: `turns * frame` reduced modulo `frames` (Euclidean, so never negative).
pub open spec fn step_of(turns: int, frame: int, frames: int) -> int {
    (turns * frame) % frames
}

/// The step a layer turning `turns` revolutions per loop has reached on frame `frame` of
/// `frames`. The angle is `TAU * step / frames`.
pub fn turn_step(turns: i32, frame: u32, frames: u32) -> (k: u32)
    requires
        frames > 0,
    ensures
        k == step_of(turns as int, frame as int, frames as int),
        k < frames,
{
    proof {
        assert(-0x8000_0000 * 0xffff_ffff <= turns as int * frame as int <= 0x7fff_ffff * 0xffff_ffff)
            by (nonlinear_arith)
            requires
                -0x8000_0000 <= turns <= 0x7fff_ffff,
                0 <= frame <= 0xffff_ffff,
        ;
    }
    let x: i64 = turns as i64 * frame as i64;
    let n: i64 = frames as i64;
    if x >= 0 {
        let r: i64 = x % n;
        r as u32
    } else {
        let m: i64 = (-x) % n;
        proof {
            lemma_neg_mod(x as int, n as int);
        }
        if m == 0 {
            0
        } else {
            (n - m) as u32
        }
    }
}

/// For a negative `x`, its Euclidean remainder mirrors that of `-x`.
proof fn lemma_neg_mod(x: int, n: int)
    requires
        x < 0,
        n > 0,
    ensures
        (-x) % n == 0 ==> x % n == 0,
        (-x) % n != 0 ==> x % n == n - (-x) % n,
{
    let q = (-x) / n;
    let r = (-x) % n;
    vstd::arithmetic::div_mod::lemma_fundamental_div_mod(-x, n);
    assert(x == -q * n - r) by (nonlinear_arith)
        requires
            -x == n * q + r,
    ;
    if r == 0 {
        vstd::arithmetic::div_mod::lemma_mod_multiples_basic(-q, n);
    } else {
        assert(x == (-q - 1) * n + (n - r)) by (nonlinear_arith)
            requires
                x == -q * n - r,
        ;
        vstd::arithmetic::div_mod::lemma_fundamental_div_mod_converse(x, n, -q - 1, n - r);
    }
}

/// The loop closes on itself: every layer is back where it started after `frames` frames,
/// and any frame looks the same as the frame a whole loop later.
pub proof fn lemma_loop_is_seamless(turns: int, frame: int, frames: int)
    requires
        frames > 0,
    ensures
        step_of(turns, frames, frames) == step_of(turns, 0, frames) == 0,
        step_of(turns, frame + frames, frames) == step_of(turns, frame, frames),
{
    vstd::arithmetic::div_mod::lemma_mod_multiples_basic(turns, frames);
    assert(turns * 0 == 0) by (nonlinear_arith);
    assert(turns * (frame + frames) == turns * frame + turns * frames) by (nonlinear_arith);
    vstd::arithmetic::div_mod::lemma_mod_multiples_vanish(turns, turns * frame, frames);
    assert(turns * frames == frames * turns) by (nonlinear_arith);
    assert(turns * frame + turns * frames == frames * turns + turns * frame) by (nonlinear_arith);
}

} // verus!
