//! What Enter sets off: the figure spins up and gathers light, explodes, flies apart and,
//! unless told to stay broken, comes back together.
//!
//! Here is the order of the sequence: which part comes next when one runs out, when a
//! press of Enter starts it, and the one moment it explodes. How long each part lasts and
//! what it does to the picture is measured in seconds by whoever keeps the clock.

use vstd::prelude::*;

verus! {

/// Where the sequence is.
#[derive(Debug, Clone, Copy, PartialEq, Eq, Structural)]
pub enum Phase {
    /// Not running.
    Idle,
    /// Spinning up and gathering light.
    Charge,
    /// Exploded: the layers fly apart and fade.
    Scatter,
    /// Gone.
    Hold,
    /// Coming back together.
    Reform,
}

/// What one step of the clock does: when the time of the current part `ended`, the next
/// part begins (a held figure that stays broken stays held, and an idle one stays idle);
/// the flag is whether the charge just turned into the explosion.
pub open spec fn step(phase: Phase, ended: bool, stay_broken: bool) -> (Phase, bool) {
    if !ended {
        (phase, false)
    } else {
        match phase {
            Phase::Idle => (Phase::Idle, false),
            Phase::Charge => (Phase::Scatter, true),
            Phase::Scatter => (Phase::Hold, false),
            Phase::Hold => if stay_broken {
                (Phase::Hold, false)
            } else {
                (Phase::Reform, false)
            },
            Phase::Reform => (Phase::Idle, false),
        }
    }
}

/// Enter was pressed: the sequence starts from the charge, unless it is already running.
/// The flag is whether it started.
pub fn start(phase: Phase) -> (r: (Phase, bool))
    ensures
        r == (if phase == Phase::Idle {
            (Phase::Charge, true)
        } else {
            (phase, false)
        }),
{
    if phase == Phase::Idle {
        (Phase::Charge, true)
    } else {
        (phase, false)
    }
}

/// The clock moved on; `ended` says whether the time spent in `phase` has reached its
/// length. The phase to be in (the clock restarts when it changed), and whether this is
/// the moment of the explosion.
pub fn advance(phase: Phase, ended: bool, stay_broken: bool) -> (r: (Phase, bool))
    ensures
        r == step(phase, ended, stay_broken),
{
    if !ended {
        return (phase, false);
    }
    match phase {
        Phase::Idle => (Phase::Idle, false),
        Phase::Charge => (Phase::Scatter, true),
        Phase::Scatter => (Phase::Hold, false),
        Phase::Hold => if stay_broken {
            (Phase::Hold, false)
        } else {
            (Phase::Reform, false)
        },
        Phase::Reform => (Phase::Idle, false),
    }
}

/// Whether the sequence is running, in which case the ambient effects hold off.
pub fn busy(phase: Phase) -> (b: bool)
    ensures
        b == (phase != Phase::Idle),
{
    phase != Phase::Idle
}

/// Where a run of clock steps ends, starting from `phase`, and how many times it exploded
/// on the way.
pub open spec fn run(phase: Phase, ended: Seq<bool>, stay_broken: bool) -> (Phase, nat)
    decreases ended.len(),
{
    if ended.len() == 0 {
        (phase, 0)
    } else {
        let (next, boom) = step(phase, ended[0], stay_broken);
        let (end, booms) = run(next, ended.drop_first(), stay_broken);
        (end, booms + if boom { 1nat } else { 0nat })
    }
}

/// One press of Enter, one explosion: however the clock runs, the sequence explodes at
/// most once, and only if it is still charging.
pub proof fn lemma_explodes_once(phase: Phase, ended: Seq<bool>, stay_broken: bool)
    ensures
        run(phase, ended, stay_broken).1 <= (if phase == Phase::Charge { 1nat } else { 0nat }),
    decreases ended.len(),
{
    if ended.len() > 0 {
        let (next, boom) = step(phase, ended[0], stay_broken);
        lemma_explodes_once(next, ended.drop_first(), stay_broken);
    }
}

/// A figure told to stay broken never comes back: once started, whatever the clock does,
/// the sequence never reforms or goes idle.
pub proof fn lemma_stay_broken_never_returns(phase: Phase, ended: Seq<bool>)
    requires
        phase != Phase::Idle,
        phase != Phase::Reform,
    ensures
        run(phase, ended, true).0 != Phase::Idle,
        run(phase, ended, true).0 != Phase::Reform,
    decreases ended.len(),
{
    if ended.len() > 0 {
        let (next, boom) = step(phase, ended[0], true);
        lemma_stay_broken_never_returns(next, ended.drop_first());
    }
}

/// How many parts are left before a sequence in `phase` is idle again, each part running
/// out in turn (not staying broken).
pub open spec fn parts_left(phase: Phase) -> nat {
    match phase {
        Phase::Idle => 0,
        Phase::Reform => 1,
        Phase::Hold => 2,
        Phase::Scatter => 3,
        Phase::Charge => 4,
    }
}

/// How many of the clock steps in `ended` saw a part run out.
pub open spec fn runs_out(ended: Seq<bool>) -> nat
    decreases ended.len(),
{
    if ended.len() == 0 {
        0
    } else {
        runs_out(ended.drop_first()) + if ended[0] { 1nat } else { 0nat }
    }
}

/// Otherwise it comes back: once as many parts have run out as were left, the sequence is
/// idle again, ready for the next press of Enter.
pub proof fn lemma_comes_back(phase: Phase, ended: Seq<bool>)
    requires
        runs_out(ended) >= parts_left(phase),
    ensures
        run(phase, ended, false).0 == Phase::Idle,
    decreases ended.len(),
{
    if ended.len() > 0 {
        let (next, boom) = step(phase, ended[0], false);
        lemma_comes_back(next, ended.drop_first());
    }
}

/// The parts come one at a time and none is skipped: a step either stays in its part or
/// moves to the very next one (one fewer part left), so the figure only goes idle from
/// reforming, and a hold that runs out, unless told to stay broken, always reforms. It
/// moves on exactly when its time has run out, except an idle sequence and a held one that
/// stays broken.
pub proof fn lemma_one_part_at_a_time(phase: Phase, ended: bool, stay_broken: bool)
    ensures
        step(phase, ended, stay_broken).0 == phase || parts_left(step(phase, ended, stay_broken).0)
            + 1 == parts_left(phase),
        step(phase, ended, stay_broken).0 == Phase::Idle ==> phase == Phase::Idle || phase
            == Phase::Reform,
        step(phase, ended, stay_broken).0 != phase <==> ended && phase != Phase::Idle && !(phase
            == Phase::Hold && stay_broken),
        step(phase, ended, stay_broken).1 <==> ended && phase == Phase::Charge,
{
}

} // verus!
