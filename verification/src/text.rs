//! Font faces, as far as the figure needs to know them: whether the bytes are a face at all,
//! and which characters it can letter. Laying the glyphs out is the renderer's business.

use crate::chars::{is_white, push_str, from_chars, to_chars, white};
use vstd::prelude::*;

verus! {

/// Which way a run of letters reads.
#[derive(Clone, Copy, PartialEq, Eq, Debug, Structural)]
pub enum Orient {
    /// Around an arc, upright to someone standing at the centre.
    Arc,
    /// Outward along a radius.
    Radial,
}

impl Default for Orient {
    fn default() -> (o: Self)
        ensures
            o == Orient::Arc,
    {
        Orient::Arc
    }
}

/// What `ttf_parser` makes of `data` as the first face of a font: nothing (`None`) when it
/// reads as a face, else the message of the reason it does not.
pub uninterp spec fn face_parse_error(data: Seq<u8>) -> Option<Seq<char>>;

/// Whether the face read from `data` maps `ch` to a glyph of its own.
pub uninterp spec fn face_maps_char(data: Seq<u8>, ch: char) -> bool;

/// The messages `ttf_parser` gives for bytes that are no face.
pub open spec fn face_error_text(m: Seq<char>) -> bool {
    ||| m == "malformed font"@
    ||| m == "unknown magic"@
    ||| m == "face index is out of bounds"@
    ||| m == "the head table is missing or malformed"@
    ||| m == "the hhea table is missing or malformed"@
    ||| m == "the maxp table is missing or malformed"@
}

/// `ttf_parser::Face::parse(data, 0)`: whether `data` reads as a face, and if not, the
/// `Display` text of the `FaceParsingError`. The contract names the outcome
/// (`face_parse_error`) and says the message is one of the six the crate writes; which
/// bytes give which outcome is not stated.
#[verifier::external_body]
fn parse_face(data: &[u8]) -> (r: Result<(), String>)
    ensures
        r is Ok <==> face_parse_error(data@) is None,
        r matches Err(m) ==> face_parse_error(data@) == Some(m@) && face_error_text(m@),
{
    match ttf_parser::Face::parse(data, 0) {
        Ok(_) => Ok(()),
        Err(e) => Err(format!("{e}")),
    }
}

/// `ttf_parser::Face::glyph_index(ch).is_some()` on the face read from `data`: whether the
/// face's Unicode character maps give `ch` a glyph. Named, not stated.
#[verifier::external_body]
fn maps_char(data: &[u8], ch: char) -> (b: bool)
    requires
        face_parse_error(data@) is None,
    ensures
        b == face_maps_char(data@, ch),
{
    match ttf_parser::Face::parse(data, 0) {
        Ok(face) => face.glyph_index(ch).is_some(),
        Err(_) => false,
    }
}

/// A font face. Owns its bytes, which always read as a face; the face tables are parsed
/// again for each question, which costs microseconds and keeps nothing borrowed.
pub struct Font {
    data: Vec<u8>,
}

impl Font {
    /// The bytes of the font.
    pub closed spec fn bytes(&self) -> Seq<u8> {
        self.data@
    }

    #[verifier::type_invariant]
    spec fn reads_as_face(&self) -> bool {
        face_parse_error(self.data@) is None
    }

    /// The face in `data`, which came from `name` (a file, as a message should show it).
    /// Bytes that are no face are refused with `name` and the reason.
    pub fn from_bytes(data: Vec<u8>, name: &str) -> (r: Result<Font, String>)
        ensures
            r is Ok <==> face_parse_error(data@) is None,
            r matches Ok(f) ==> f.bytes() == data@,
            r matches Err(m) ==> m@ == name@ + " is not a usable font: "@ + face_parse_error(
                data@,
            ).unwrap(),
    {
        match parse_face(data.as_slice()) {
            Ok(()) => Ok(Font { data }),
            Err(e) => {
                let mut m: Vec<char> = to_chars(name);
                push_str(&mut m, " is not a usable font: ");
                push_str(&mut m, e.as_str());
                Err(from_chars(&m))
            },
        }
    }

    /// Whether the face can letter `ch`: white space always, anything else when the face
    /// has a glyph for it.
    pub fn has_char(&self, ch: char) -> (b: bool)
        ensures
            b == (is_white(ch) || face_maps_char(self.bytes(), ch)),
    {
        proof {
            use_type_invariant(self);
        }
        white(ch) || maps_char(self.data.as_slice(), ch)
    }

    /// The bytes of the font, for whatever lays its glyphs out.
    pub fn data(&self) -> (d: &[u8])
        ensures
            d@ == self.bytes(),
            face_parse_error(d@) is None,
    {
        proof {
            use_type_invariant(self);
        }
        self.data.as_slice()
    }
}

} // verus!
