//! What the viewer does with a key. Every printable key is typing, as it will be on a login
//! screen; everything the viewer itself offers sits on the function keys, out of its way.

use vstd::prelude::*;

verus! {

/// A pressed key, as far as the viewer tells keys apart.
#[derive(Debug, Clone, Copy, PartialEq, Eq, Structural)]
pub enum Key {
    Escape,
    Enter,
    Backspace,
    Space,
    /// Any key that types a character.
    Character,
    /// `F1` to `F12` and beyond, by number.
    Function(u8),
    /// Anything else.
    Other,
}

/// What a key asks for.
#[derive(Debug, Clone, Copy, PartialEq, Eq, Structural)]
pub enum Action {
    Quit,
    /// Set off the surge.
    Surge,
    /// Put the last typed letter out.
    Untype,
    /// Light the next letter.
    Type,
    Help,
    ColorWave,
    Dissolve,
    Scramble,
    Constellation,
    /// Paint each layer in its own colour, or stop.
    ToggleTint,
    /// Supersample less (faster) or more (smoother).
    FewerSamples,
    MoreSamples,
    /// Bloom every layer at once.
    LightAll,
    Nothing,
}

/// The action for each key.
pub open spec fn action_of(key: Key) -> Action {
    match key {
        Key::Escape => Action::Quit,
        Key::Enter => Action::Surge,
        Key::Backspace => Action::Untype,
        Key::Space => Action::Type,
        Key::Character => Action::Type,
        Key::Function(n) => if n == 1 {
            Action::Help
        } else if n == 2 {
            Action::ColorWave
        } else if n == 3 {
            Action::Dissolve
        } else if n == 4 {
            Action::Scramble
        } else if n == 5 {
            Action::Constellation
        } else if n == 6 {
            Action::ToggleTint
        } else if n == 7 {
            Action::FewerSamples
        } else if n == 8 {
            Action::MoreSamples
        } else if n == 9 {
            Action::LightAll
        } else {
            Action::Nothing
        },
        Key::Other => Action::Nothing,
    }
}

/// What pressing `key` asks the viewer to do.
pub fn action_for(key: Key) -> (a: Action)
    ensures
        a == action_of(key),
{
    match key {
        Key::Escape => Action::Quit,
        Key::Enter => Action::Surge,
        Key::Backspace => Action::Untype,
        Key::Space | Key::Character => Action::Type,
        Key::Function(1) => Action::Help,
        Key::Function(2) => Action::ColorWave,
        Key::Function(3) => Action::Dissolve,
        Key::Function(4) => Action::Scramble,
        Key::Function(5) => Action::Constellation,
        Key::Function(6) => Action::ToggleTint,
        Key::Function(7) => Action::FewerSamples,
        Key::Function(8) => Action::MoreSamples,
        Key::Function(9) => Action::LightAll,
        Key::Function(_) | Key::Other => Action::Nothing,
    }
}

/// The most samples per pixel along each axis the viewer takes.
pub const MAX_SAMPLES: u32 = 4;

/// One fewer, but never none.
pub open spec fn fewer(ss: u32) -> int {
    if ss <= 2 { 1 } else { ss - 1 }
}

/// One more, up to `MAX_SAMPLES`.
pub open spec fn more(ss: u32) -> int {
    if ss + 1 >= MAX_SAMPLES { MAX_SAMPLES as int } else { ss + 1 }
}

/// One sample fewer along each axis, but never none.
pub fn fewer_samples(ss: u32) -> (s: u32)
    ensures
        s == fewer(ss),
{
    if ss <= 2 { 1 } else { ss - 1 }
}

/// One sample more along each axis, up to `MAX_SAMPLES`.
pub fn more_samples(ss: u32) -> (s: u32)
    requires
        ss < u32::MAX,
    ensures
        s == more(ss),
{
    if ss + 1 >= MAX_SAMPLES { MAX_SAMPLES } else { ss + 1 }
}

/// Supersampling that starts between 1 and `MAX_SAMPLES` stays there whatever keys are
/// pressed.
pub proof fn lemma_samples_stay_in_range(ss: u32)
    requires
        1 <= ss <= MAX_SAMPLES,
    ensures
        1 <= fewer(ss) <= MAX_SAMPLES,
        1 <= more(ss) <= MAX_SAMPLES,
{
}

/// F7 is the one key that supersamples less and F8 the one that supersamples more: F7
/// never raises the count and lowers it unless it is already 1, F8 never lowers it and
/// raises it unless it is already `MAX_SAMPLES`.
pub proof fn lemma_f7_down_f8_up(key: Key, ss: u32)
    requires
        1 <= ss <= MAX_SAMPLES,
    ensures
        action_of(key) == Action::FewerSamples <==> key == Key::Function(7),
        action_of(key) == Action::MoreSamples <==> key == Key::Function(8),
        fewer(ss) <= ss,
        ss > 1 ==> fewer(ss) < ss,
        more(ss) >= ss,
        ss < MAX_SAMPLES ==> more(ss) > ss,
{
}

} // verus!
