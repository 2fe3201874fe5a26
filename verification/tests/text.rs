use imagespin::figure::missing::Missing;
use imagespin::text::{Font, Orient};

fn be16(v: &mut Vec<u8>, x: u16) {
    v.extend(x.to_be_bytes());
}

fn be32(v: &mut Vec<u8>, x: u32) {
    v.extend(x.to_be_bytes());
}

/// The smallest face `ttf_parser` accepts: `head`, `hhea` and `maxp`, and a `cmap` that
/// gives `A` to `Z` a glyph each and nothing else one.
fn tiny_font() -> Vec<u8> {
    let mut cmap = Vec::new();
    be16(&mut cmap, 0); // version
    be16(&mut cmap, 1); // one encoding record
    be16(&mut cmap, 0); // Unicode platform
    be16(&mut cmap, 4); // full repertoire
    be32(&mut cmap, 12); // subtable offset
    be16(&mut cmap, 12); // format 12
    be16(&mut cmap, 0);
    be32(&mut cmap, 28); // length
    be32(&mut cmap, 0); // language
    be32(&mut cmap, 1); // one group
    be32(&mut cmap, 'A' as u32);
    be32(&mut cmap, 'Z' as u32);
    be32(&mut cmap, 1); // first glyph

    let mut head = vec![0u8; 54];
    head[18..20].copy_from_slice(&1000u16.to_be_bytes()); // units per em

    let hhea = vec![0u8; 36];

    let mut maxp = Vec::new();
    be32(&mut maxp, 0x0000_5000);
    be16(&mut maxp, 27); // glyphs

    let tables: [(&[u8; 4], Vec<u8>); 4] = [(b"cmap", cmap), (b"head", head), (b"hhea", hhea), (b"maxp", maxp)];
    let mut font = Vec::new();
    be32(&mut font, 0x0001_0000);
    be16(&mut font, tables.len() as u16);
    be16(&mut font, 0);
    be16(&mut font, 0);
    be16(&mut font, 0);
    let mut offset = 12 + 16 * tables.len() as u32;
    for (tag, data) in &tables {
        font.extend(*tag);
        be32(&mut font, 0); // checksum
        be32(&mut font, offset);
        be32(&mut font, data.len() as u32);
        offset += data.len() as u32;
    }
    for (_, data) in &tables {
        font.extend(data);
    }
    font
}

#[test]
fn a_face_letters_what_its_map_covers_and_white_space() {
    let f = Font::from_bytes(tiny_font(), "tiny.ttf").unwrap();
    assert!(f.has_char('A'));
    assert!(f.has_char('Q'));
    assert!(f.has_char('Z'));
    assert!(!f.has_char('a'));
    assert!(!f.has_char('@'));
    assert!(f.has_char(' '));
    assert!(f.has_char('\u{3000}'));
    assert_eq!(f.data(), &tiny_font()[..]);
}

#[test]
fn bytes_that_are_no_font_are_refused_by_name() {
    let e = Font::from_bytes(b"abcd".to_vec(), "fonts/x.ttf").err().unwrap();
    assert_eq!(e, "fonts/x.ttf is not a usable font: unknown magic");
    let e = Font::from_bytes(Vec::new(), "empty.ttf").err().unwrap();
    assert_eq!(e, "empty.ttf is not a usable font: unknown magic");
    // The right magic and nothing else.
    let e = Font::from_bytes(vec![0, 1, 0, 0], "short.ttf").err().unwrap();
    assert_eq!(e, "short.ttf is not a usable font: malformed font");
}

#[test]
fn a_face_without_its_head_table_is_refused() {
    let mut f = tiny_font();
    // Rename `head`, the second table record, to something unknown.
    f[12 + 16] = b'x';
    let e = Font::from_bytes(f, "nohead.ttf").err().unwrap();
    assert_eq!(e, "nohead.ttf is not a usable font: the head table is missing or malformed");
}

#[test]
fn runs_read_around_the_arc_unless_told_otherwise() {
    assert_eq!(Orient::default(), Orient::Arc);
    assert_ne!(Orient::Radial, Orient::Arc);
}

#[test]
fn missing_characters_are_listed_once_in_order() {
    let f = Font::from_bytes(tiny_font(), "tiny.ttf").unwrap();
    let mut m = Missing::new();
    assert!(m.is_empty());
    assert_eq!(m.warning("ring"), None);
    m.note(&f, "ABC DEF");
    assert!(m.is_empty());
    m.note(&f, "zebra Zeta");
    m.note(&f, "\"a\"");
    assert!(!m.is_empty());
    assert_eq!(
        m.warning("letter ring").unwrap(),
        "layer \"letter ring\": the font has no glyph for \"\\\"abertz\""
    );
}
