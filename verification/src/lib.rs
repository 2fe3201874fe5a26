//! Spin each layer of a concentric sigil independently: the whole-number core of the
//! renderer, the GIF palette and the glow pyramid, finding the glyphs of the artwork, the
//! figure file's rules and fonts, and the decisions of the live viewer's effects.

pub mod chars;
pub mod config;
pub mod dissolve;
pub mod figure;
pub mod gifout;
pub mod glyphs;
pub mod keys;
pub mod pool;
pub mod pyramid;
pub mod spin;
pub mod surge;
pub mod text;
pub mod typing;
