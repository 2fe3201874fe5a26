//! Plain values of a figure file: colours, the animation loop, and its layers.

use crate::chars::{debug_quoted, debug_text, to_chars};
use crate::config::{
    all_hex, hex_digit, hex_value, lemma_hex_value_bound, parse_hex_digits, pow16,
    rgb_bytes,
};
use vstd::prelude::*;

verus! {

/// A colour, written `"#RRGGBB"`.
#[derive(Debug, Clone, Copy, PartialEq, Eq)]
pub struct Rgb(pub [u8; 3]);

/// One full loop of the animation; every layer's `turns` are per loop.
#[derive(Debug, Clone, Copy, PartialEq, Eq, Structural)]
pub struct Loop {
    pub frames: u32,
    pub fps: u32,
}

/// A group of elements that turns as one. `E` is what an element is to whoever draws it.
pub struct LayerSpec<E> {
    pub name: String,
    /// Whole revolutions per loop, positive clockwise. Whole numbers keep the loop seamless.
    pub turns: i32,
    /// Stacking: a higher `z` draws on top. Layers with the same `z` (the default is 0) keep
    /// the order they are written in.
    pub z: i32,
    pub elements: Vec<E>,
    /// A remark for whoever edits the file; never drawn.
    pub note: Option<String>,
}

/// The colour a `"#RRGGBB"` string names: `#` and then six hexadecimal digits, either
/// case.
pub open spec fn colour_code(s: Seq<char>) -> Option<[u8; 3]> {
    if s.len() == 7 && s[0] == '#' && all_hex(s.skip(1)) {
        Some(rgb_bytes(hex_value(s.skip(1))))
    } else {
        None
    }
}

/// What is said about a colour that is not `"#RRGGBB"`.
pub open spec fn colour_complaint(s: Seq<char>) -> Seq<char> {
    "expected a colour like \"#FBB929\", got "@ + debug_quoted(s)
}

impl Rgb {
    /// Read a colour written `"#RRGGBB"`.
    pub fn try_from(s: String) -> (r: Result<Rgb, String>)
        ensures
            r matches Ok(c) ==> colour_code(s@) == Some(c.0),
            r matches Err(m) ==> colour_code(s@) is None && m@ == colour_complaint(s@),
    {
        let v = to_chars(s.as_str());
        proof {
            if v@.len() == 7 && v@[0] == '#' {
                let d = v@.skip(1);
                if d[0] == '+' {
                    assert(hex_digit(d[0]) is None);
                }
                if all_hex(d) {
                    lemma_hex_value_bound(d);
                    reveal_with_fuel(pow16, 7);
                }
            }
        }
        if v.len() == 7 && v[0] == '#' && v[1] != '+' {
            if let Some(n) = parse_hex_digits(&v, 1) {
                let r = ((n >> 16u32) & 0xff) as u8;
                let g = ((n >> 8u32) & 0xff) as u8;
                let b = (n & 0xff) as u8;
                proof {
                    assert((n >> 16u32) & 0xff == (n / 0x10000) % 256) by (bit_vector);
                    assert((n >> 8u32) & 0xff == (n / 0x100) % 256) by (bit_vector);
                    assert(n & 0xff == n % 256) by (bit_vector);
                }
                return Ok(Rgb([r, g, b]));
            }
        }
        let mut m = String::from_str("expected a colour like \"#FBB929\", got ");
        let q = debug_text(s.as_str());
        m.append(q.as_str());
        Err(m)
    }
}

} // verus!
