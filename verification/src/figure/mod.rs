//! The figure file's rules: colours, symbols, layer stacking, star shapes, and the errors
//! that say what is wrong with a file and where.

pub mod error;
pub mod items;
pub mod missing;
pub mod rules;
pub mod spec;
pub mod star;
pub mod symbols;

pub use error::FigureError;
pub use items::Item;
pub use spec::{LayerSpec, Loop, Rgb};
pub use symbols::Symbol;
